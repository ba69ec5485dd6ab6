use vstd::prelude::*;
use crate::dijkstra::{Dijkstrable, dijkstra, settled, lemma_fresh_ready, lemma_settled_unique};
use crate::maze::{find_start_end, is_first, END, WALL};
use crate::memory::{MemorySpace, Node, SAFE, space_edges, lemma_space_edges_in_range};

verus! {

/// `g` is the race track `width` cells wide whose cells, row by row, are
/// `cells`, as far as a search sees it: moves go up, down, left or right at
/// cost 1, and walls cannot be entered.
pub open spec fn is_track<G: Dijkstrable>(g: &G, width: usize, cells: Seq<u8>) -> bool {
    &&& g.dists().len() == cells.len()
    &&& forall|p: int| #[trigger] g.edges(p) == space_edges(p, width as int, cells.len() as int)
    &&& forall|p: int| #[trigger] g.blocked(p) == (0 <= p < cells.len() && cells[p] == WALL)
}

/// Every finished search over the track from `e` (at distance 0) ends with
/// the store `ds`: by `lemma_shortest`, the distance of each cell to `e`.
pub open spec fn track_dists_are(width: usize, cells: Seq<u8>, e: usize, ds: Seq<Option<u64>>) -> bool {
    forall|g: MemorySpace| is_track(&g, width, cells) && settled(&g, e, 0) ==> #[trigger] g.dists() == ds
}

proof fn lemma_track_unique(g: &MemorySpace, width: usize, cells: Seq<u8>, e: usize)
    requires
        is_track(g, width, cells),
        settled(g, e, 0),
    ensures
        track_dists_are(width, cells, e, g.dists()),
{
    assert forall|g2: MemorySpace| is_track(&g2, width, cells) && settled(&g2, e, 0) implies #[trigger] g2.dists()
        == g.dists() by {
        lemma_settled_unique(g, &g2, e, 0);
    }
}

/// The track `width` cells wide whose cells are `cells`, every cell
/// undiscovered.
pub fn track_space(width: usize, cells: &Vec<u8>) -> (r: MemorySpace)
    requires
        width > 0,
    ensures
        r.wf(),
        cells@.len() <= usize::MAX,
        is_track(&r, width, cells@),
        forall|p: int| 0 <= p < cells@.len() ==> (#[trigger] r.dists()[p]) is None,
{
    let mut nodes: Vec<Node> = Vec::new();
    let mut i: usize = 0;
    while i < cells.len()
        invariant
            i <= cells.len(),
            nodes@.len() == i,
            forall|j: int| 0 <= j < i ==> (#[trigger] nodes@[j]).val == cells@[j] && nodes@[j].distance is None,
        decreases cells.len() - i,
    {
        nodes.push(Node { val: cells[i], distance: None });
        i = i + 1;
    }
    let r = MemorySpace { width, nodes };
    assert forall|p: int| #[trigger] r.blocked(p) == (0 <= p < cells@.len() && cells@[p] == WALL) by {}
    assert forall|p: int| 0 <= p < cells@.len() implies (#[trigger] r.dists()[p]) is None by {
        assert(r.dists()[p] == r.nodes@[p].distance);
    }
    r
}

/// The end tile (the first `E`) and the track with the distance of every
/// cell to it; `None` if there is no end tile.
pub fn track_from_end(width: usize, cells: &Vec<u8>) -> (r: Option<(usize, MemorySpace)>)
    requires
        width > 0,
    ensures
        r matches Some((e, g)) ==> {
            &&& is_first(cells@, END, e as int)
            &&& g.wf()
            &&& is_track(&g, width, cells@)
            &&& settled(&g, e, 0)
            &&& track_dists_are(width, cells@, e, g.dists())
        },
        r is None ==> forall|j: int| 0 <= j < cells@.len() ==> cells@[j] != END,
{
    let e = match find_start_end(cells, END) {
        Some(e) => e,
        None => {
            return None;
        },
    };
    let mut g = track_space(width, cells);
    g.set_dist(e, Some(0));
    proof {
        lemma_space_edges_in_range(&g);
        assert(g.dists().len() == cells@.len());
        assert forall|p: int| 0 <= p < g.dists().len() && p != e implies #[trigger] g.dists()[p] is None by {}
        lemma_fresh_ready(&g, e, 0);
    }
    dijkstra(&mut g, e, 0);
    proof {
        lemma_track_unique(&g, width, cells@, e);
    }
    Some((e, g))
}

/// Cell `p` is track (not wall) with a known distance in `ds`.
pub open spec fn is_open(cells: Seq<u8>, ds: Seq<Option<u64>>, p: int) -> bool {
    0 <= p < cells.len() && cells[p] != WALL && ds[p] is Some
}

/// What a cheat from `a` to `b` taking `cost` steps saves: how much closer to
/// the end `b` is than `a`, less the cheat's own steps.
pub open spec fn saving(ds: Seq<Option<u64>>, a: int, b: int, cost: int) -> int {
    ds[a]->0 - ds[b]->0 - cost
}

/// Over the first `j` neighbours `n2` of `n1`: how many are open and save at
/// least `min_save` as the end of a two-step cheat from `c`.
pub open spec fn second_steps(w: int, cells: Seq<u8>, ds: Seq<Option<u64>>, c: int, n1: int, j: int, min_save: int) -> int
    decreases j,
{
    if j <= 0 {
        0
    } else {
        let n2 = space_edges(n1, w, cells.len() as int)[j - 1].0 as int;
        second_steps(w, cells, ds, c, n1, j - 1, min_save) + if is_open(cells, ds, n2) && saving(ds, c, n2, 2)
            >= min_save {
            1int
        } else {
            0int
        }
    }
}

/// The two-step cheats from `c` through its first `i` neighbours that save at
/// least `min_save`.
pub open spec fn first_steps(w: int, cells: Seq<u8>, ds: Seq<Option<u64>>, c: int, i: int, min_save: int) -> int
    decreases i,
{
    if i <= 0 {
        0
    } else {
        let n1 = space_edges(c, w, cells.len() as int)[i - 1].0 as int;
        first_steps(w, cells, ds, c, i - 1, min_save) + second_steps(
            w,
            cells,
            ds,
            c,
            n1,
            space_edges(n1, w, cells.len() as int).len() as int,
            min_save,
        )
    }
}

/// The two-step cheats starting on the first `n` cells that save at least
/// `min_save`: each start, first step and second step counts once.
pub open spec fn short_cheats(w: int, cells: Seq<u8>, ds: Seq<Option<u64>>, n: int, min_save: int) -> int
    decreases n,
{
    if n <= 0 {
        0
    } else {
        short_cheats(w, cells, ds, n - 1, min_save) + if is_open(cells, ds, n - 1) {
            first_steps(w, cells, ds, n - 1, space_edges(n - 1, w, cells.len() as int).len() as int, min_save)
        } else {
            0
        }
    }
}

proof fn lemma_second_bound(w: int, cells: Seq<u8>, ds: Seq<Option<u64>>, c: int, n1: int, j: int, min_save: int)
    requires
        0 <= j,
    ensures
        0 <= second_steps(w, cells, ds, c, n1, j, min_save) <= j,
    decreases j,
{
    if j > 0 {
        lemma_second_bound(w, cells, ds, c, n1, j - 1, min_save);
    }
}

proof fn lemma_first_bound(w: int, cells: Seq<u8>, ds: Seq<Option<u64>>, c: int, i: int, min_save: int)
    requires
        0 <= i <= 4,
        forall|k: int| 0 <= k < i ==> space_edges(#[trigger] space_edges(c, w, cells.len() as int)[k].0 as int, w, cells.len() as int).len() <= 4,
    ensures
        0 <= first_steps(w, cells, ds, c, i, min_save) <= 4 * i,
    decreases i,
{
    if i > 0 {
        lemma_first_bound(w, cells, ds, c, i - 1, min_save);
        let n1 = space_edges(c, w, cells.len() as int)[i - 1].0 as int;
        lemma_second_bound(w, cells, ds, c, n1, space_edges(n1, w, cells.len() as int).len() as int, min_save);
    }
}

proof fn lemma_short_cheats_bound(w: int, cells: Seq<u8>, ds: Seq<Option<u64>>, n: int, min_save: int)
    requires
        0 <= n,
    ensures
        0 <= short_cheats(w, cells, ds, n, min_save) <= 16 * n,
    decreases n,
{
    if n > 0 {
        lemma_short_cheats_bound(w, cells, ds, n - 1, min_save);
        let c = n - 1;
        assert forall|k: int| 0 <= k < space_edges(c, w, cells.len() as int).len() implies space_edges(
            #[trigger] space_edges(c, w, cells.len() as int)[k].0 as int,
            w,
            cells.len() as int,
        ).len() <= 4 by {}
        lemma_first_bound(w, cells, ds, c, space_edges(c, w, cells.len() as int).len() as int, min_save);
    }
}

/// Whether `p` is open and a cheat from a cell at distance `dc` ending there
/// after `cost` steps saves at least `min_save`.
fn saves_enough(g: &MemorySpace, cells: &Vec<u8>, p: usize, dc: u64, cost: u64, min_save: u64) -> (r: bool)
    requires
        g.wf(),
        g.dists().len() == cells.len(),
        p < cells.len(),
    ensures
        r == (is_open(cells@, g.dists(), p as int) && dc - g.dists()[p as int]->0 - cost >= min_save),
{
    if cells[p] == WALL {
        return false;
    }
    match g.dist(p) {
        None => false,
        Some(dp) => dc as u128 >= dp as u128 + cost as u128 + min_save as u128,
    }
}

/// The number of two-step cheats (start, first step, second step; walls may
/// be passed through) that save at least `min_save` steps, given the distance
/// of each cell to the end in `g`.
pub fn count_short_cheats(g: &MemorySpace, cells: &Vec<u8>, min_save: u64) -> (r: u64)
    requires
        g.wf(),
        cells.len() <= u32::MAX,
        is_track(g, g.width, cells@),
    ensures
        r == short_cheats(g.width as int, cells@, g.dists(), cells@.len() as int, min_save as int),
{
    let ghost w = g.width as int;
    let ghost ds = g.dists();
    let ghost len = cells@.len() as int;
    let mut total: u64 = 0;
    let mut c: usize = 0;
    while c < cells.len()
        invariant
            g.wf(),
            cells.len() <= u32::MAX,
            is_track(g, g.width, cells@),
            w == g.width,
            ds == g.dists(),
            len == cells@.len(),
            c <= cells.len(),
            total == short_cheats(w, cells@, ds, c as int, min_save as int),
        decreases cells.len() - c,
    {
        proof {
            lemma_short_cheats_bound(w, cells@, ds, c + 1, min_save as int);
        }
        if cells[c] != WALL {
            if let Some(dc) = g.dist(c) {
                let ns = g.neighbours(c);
                let ghost base = total;
                let mut i: usize = 0;
                while i < ns.len()
                    invariant
                        g.wf(),
                        is_track(g, g.width, cells@),
                        w == g.width,
                        ds == g.dists(),
                        len == cells@.len(),
                        c < cells.len(),
                        is_open(cells@, ds, c as int),
                        ds[c as int] == Some(dc),
                        ns@ == space_edges(c as int, w, len),
                        forall|k: int| 0 <= k < ns@.len() ==> (#[trigger] ns@[k]).0 < len,
                        i <= ns.len(),
                        base == short_cheats(w, cells@, ds, c as int, min_save as int),
                        total == base + first_steps(w, cells@, ds, c as int, i as int, min_save as int),
                        short_cheats(w, cells@, ds, c + 1, min_save as int) <= u64::MAX,
                    decreases ns.len() - i,
                {
                    let n1 = ns[i].0;
                    let ms = g.neighbours(n1);
                    let ghost mid = total;
                    let mut j: usize = 0;
                    proof {
                        lemma_first_prefix(w, cells@, ds, c as int, i + 1, ns@.len() as int, min_save as int);
                    }
                    while j < ms.len()
                        invariant
                            g.wf(),
                            is_track(g, g.width, cells@),
                            w == g.width,
                            ds == g.dists(),
                            len == cells@.len(),
                            ds[c as int] == Some(dc),
                            n1 < len,
                            ms@ == space_edges(n1 as int, w, len),
                            forall|k: int| 0 <= k < ms@.len() ==> (#[trigger] ms@[k]).0 < len,
                            j <= ms.len(),
                            mid + second_steps(w, cells@, ds, c as int, n1 as int, ms@.len() as int, min_save as int)
                                <= u64::MAX,
                            total == mid + second_steps(w, cells@, ds, c as int, n1 as int, j as int, min_save as int),
                        decreases ms.len() - j,
                    {
                        proof {
                            lemma_second_prefix(w, cells@, ds, c as int, n1 as int, j + 1, ms@.len() as int, min_save as int);
                        }
                        if saves_enough(g, cells, ms[j].0, dc, 2, min_save) {
                            total = total + 1;
                        }
                        j = j + 1;
                    }
                    i = i + 1;
                }
            }
        }
        c = c + 1;
    }
    total
}

proof fn lemma_second_prefix(w: int, cells: Seq<u8>, ds: Seq<Option<u64>>, c: int, n1: int, m: int, n: int, min_save: int)
    requires
        0 <= m <= n,
    ensures
        second_steps(w, cells, ds, c, n1, m, min_save) <= second_steps(w, cells, ds, c, n1, n, min_save),
    decreases n - m,
{
    if m < n {
        lemma_second_prefix(w, cells, ds, c, n1, m, n - 1, min_save);
    }
}

proof fn lemma_first_prefix(w: int, cells: Seq<u8>, ds: Seq<Option<u64>>, c: int, m: int, n: int, min_save: int)
    requires
        0 <= m <= n,
    ensures
        first_steps(w, cells, ds, c, m, min_save) <= first_steps(w, cells, ds, c, n, min_save),
    decreases n - m,
{
    if m < n {
        lemma_first_prefix(w, cells, ds, c, m, n - 1, min_save);
        let n1 = space_edges(c, w, cells.len() as int)[n - 1].0 as int;
        lemma_second_bound(w, cells, ds, c, n1, space_edges(n1, w, cells.len() as int).len() as int, min_save);
    }
}


/// `g` is the grid `width` cells wide of `len` cells with no walls at all.
pub open spec fn is_open_grid<G: Dijkstrable>(g: &G, width: usize, len: int) -> bool {
    &&& g.dists().len() == len
    &&& forall|p: int| #[trigger] g.edges(p) == space_edges(p, width as int, len)
    &&& forall|p: int| !#[trigger] g.blocked(p)
}

/// The store that every finished search over the wall-free grid from `c`
/// ends with: the number of steps from `c` to each cell, ignoring walls.
pub open spec fn open_dists(width: usize, len: int, c: usize) -> Seq<Option<u64>> {
    choose|ds: Seq<Option<u64>>| #[trigger] open_search_ends(width, len, c, ds)
}

/// Some finished search over the wall-free grid from `c` ends with `ds`.
pub open spec fn open_search_ends(width: usize, len: int, c: usize, ds: Seq<Option<u64>>) -> bool {
    exists|g: MemorySpace| is_open_grid(&g, width, len) && settled(&g, c, 0) && #[trigger] g.dists() == ds
}

/// Over the first `n` cells `t`: how many are open, at most `max_len` steps
/// from `c` ignoring walls (`cd`), and save at least `min_save` as the end of
/// a cheat from `c`.
pub open spec fn long_cheats_from(
    cells: Seq<u8>,
    ds: Seq<Option<u64>>,
    c: int,
    cd: Seq<Option<u64>>,
    n: int,
    max_len: int,
    min_save: int,
) -> int
    decreases n,
{
    if n <= 0 {
        0
    } else {
        let t = n - 1;
        long_cheats_from(cells, ds, c, cd, n - 1, max_len, min_save) + if is_open(cells, ds, t) && cd[t] is Some
            && cd[t]->0 <= max_len && saving(ds, c, t, cd[t]->0 as int) >= min_save {
            1int
        } else {
            0int
        }
    }
}

/// The cheats of at most `max_len` steps starting on the first `n` cells that
/// save at least `min_save`: each pair of start and end counts once.
pub open spec fn long_cheats(
    width: usize,
    cells: Seq<u8>,
    ds: Seq<Option<u64>>,
    n: int,
    max_len: int,
    min_save: int,
) -> int
    decreases n,
{
    if n <= 0 {
        0
    } else {
        long_cheats(width, cells, ds, n - 1, max_len, min_save) + if is_open(cells, ds, n - 1) {
            long_cheats_from(
                cells,
                ds,
                n - 1,
                open_dists(width, cells.len() as int, (n - 1) as usize),
                cells.len() as int,
                max_len,
                min_save,
            )
        } else {
            0
        }
    }
}

/// The wall-free grid `width` cells wide of `len` cells, every cell undiscovered.
fn open_space(width: usize, len: usize) -> (r: MemorySpace)
    requires
        width > 0,
    ensures
        r.wf(),
        is_open_grid(&r, width, len as int),
        forall|p: int| 0 <= p < len ==> (#[trigger] r.dists()[p]) is None,
{
    let mut nodes: Vec<Node> = Vec::new();
    let mut i: usize = 0;
    while i < len
        invariant
            i <= len,
            nodes@.len() == i,
            forall|j: int| 0 <= j < i ==> (#[trigger] nodes@[j]).val == SAFE && nodes@[j].distance is None,
        decreases len - i,
    {
        nodes.push(Node::new());
        i = i + 1;
    }
    let r = MemorySpace { width, nodes };
    assert forall|p: int| 0 <= p < len implies (#[trigger] r.dists()[p]) is None by {
        assert(r.dists()[p] == r.nodes@[p].distance);
    }
    r
}

proof fn lemma_open_dists(g: &MemorySpace, width: usize, len: int, c: usize)
    requires
        is_open_grid(g, width, len),
        settled(g, c, 0),
    ensures
        open_dists(width, len, c) == g.dists(),
{
    assert(open_search_ends(width, len, c, g.dists())) by {
        assert(is_open_grid(g, width, len) && settled(g, c, 0) && g.dists() == g.dists());
    }
    let ds = open_dists(width, len, c);
    assert(open_search_ends(width, len, c, ds));
    let g2 = choose|g2: MemorySpace| is_open_grid(&g2, width, len) && settled(&g2, c, 0) && #[trigger] g2.dists() == ds;
    lemma_settled_unique(g, &g2, c, 0);
}

proof fn lemma_long_from_bound(
    cells: Seq<u8>,
    ds: Seq<Option<u64>>,
    c: int,
    cd: Seq<Option<u64>>,
    n: int,
    max_len: int,
    min_save: int,
)
    requires
        0 <= n,
    ensures
        0 <= long_cheats_from(cells, ds, c, cd, n, max_len, min_save) <= n,
    decreases n,
{
    if n > 0 {
        lemma_long_from_bound(cells, ds, c, cd, n - 1, max_len, min_save);
    }
}

proof fn lemma_long_bound(width: usize, cells: Seq<u8>, ds: Seq<Option<u64>>, n: int, max_len: int, min_save: int)
    requires
        0 <= n,
    ensures
        0 <= long_cheats(width, cells, ds, n, max_len, min_save) <= n * cells.len(),
    decreases n,
{
    if n > 0 {
        lemma_long_bound(width, cells, ds, n - 1, max_len, min_save);
        lemma_long_from_bound(
            cells,
            ds,
            n - 1,
            open_dists(width, cells.len() as int, (n - 1) as usize),
            cells.len() as int,
            max_len,
            min_save,
        );
        assert((n - 1) * cells.len() + cells.len() == n * cells.len()) by (nonlinear_arith);
    }
}

/// The wall-free grid with the number of steps from `c` to each cell.
fn open_distances_from(width: usize, len: usize, c: usize) -> (r: MemorySpace)
    requires
        width > 0,
        c < len,
    ensures
        r.wf(),
        r.dists() == open_dists(width, len as int, c),
        r.dists().len() == len,
{
    let mut open = open_space(width, len);
    open.set_dist(c, Some(0));
    proof {
        lemma_space_edges_in_range(&open);
        assert forall|p: int| 0 <= p < open.dists().len() && p != c implies #[trigger] open.dists()[p] is None by {}
        lemma_fresh_ready(&open, c, 0);
    }
    dijkstra(&mut open, c, 0);
    proof {
        lemma_open_dists(&open, width, len as int, c);
    }
    open
}

/// The cheats from `c` (at distance `dc` from the end) of at most `max_len`
/// steps that save at least `min_save`, given the distances to the end in `g`.
pub fn compute_cheats_20(g: &MemorySpace, cells: &Vec<u8>, c: usize, dc: u64, max_len: u64, min_save: u64) -> (r: u64)
    requires
        g.wf(),
        cells.len() <= u32::MAX,
        is_track(g, g.width, cells@),
        c < cells.len(),
        g.dists()[c as int] == Some(dc),
    ensures
        r == long_cheats_from(
            cells@,
            g.dists(),
            c as int,
            open_dists(g.width, cells@.len() as int, c),
            cells@.len() as int,
            max_len as int,
            min_save as int,
        ),
{
    let open = open_distances_from(g.width, cells.len(), c);
    let ghost cd = open.dists();
    let mut count: u64 = 0;
    let mut t: usize = 0;
    while t < cells.len()
        invariant
            g.wf(),
            open.wf(),
            open.dists() == cd,
            cd.len() == cells@.len(),
            cells.len() <= u32::MAX,
            is_track(g, g.width, cells@),
            c < cells.len(),
            g.dists()[c as int] == Some(dc),
            t <= cells.len(),
            count == long_cheats_from(cells@, g.dists(), c as int, cd, t as int, max_len as int, min_save as int),
            count <= t,
        decreases cells.len() - t,
    {
        if let Some(steps) = open.dist(t) {
            if steps <= max_len && saves_enough(g, cells, t, dc, steps, min_save) {
                count = count + 1;
            }
        }
        t = t + 1;
    }
    count
}

/// The number of cheats of at most `max_len` steps (walls may be passed
/// through; a cheat is its start and end) that save at least `min_save`
/// steps, given the distance of each cell to the end in `g`.
pub fn count_long_cheats(g: &MemorySpace, cells: &Vec<u8>, max_len: u64, min_save: u64) -> (r: u64)
    requires
        g.wf(),
        cells.len() <= u32::MAX,
        is_track(g, g.width, cells@),
    ensures
        r == long_cheats(g.width, cells@, g.dists(), cells@.len() as int, max_len as int, min_save as int),
{
    let mut total: u64 = 0;
    let mut c: usize = 0;
    while c < cells.len()
        invariant
            g.wf(),
            cells.len() <= u32::MAX,
            is_track(g, g.width, cells@),
            c <= cells.len(),
            total == long_cheats(g.width, cells@, g.dists(), c as int, max_len as int, min_save as int),
        decreases cells.len() - c,
    {
        proof {
            lemma_long_bound(g.width, cells@, g.dists(), c + 1, max_len as int, min_save as int);
            assert((c + 1) * cells@.len() <= u32::MAX * u32::MAX) by (nonlinear_arith)
                requires
                    c + 1 <= cells@.len(),
                    cells@.len() <= u32::MAX,
            ;
        }
        if cells[c] != WALL {
            if let Some(dc) = g.dist(c) {
                let k = compute_cheats_20(g, cells, c, dc, max_len, min_save);
                total = total + k;
            }
        }
        c = c + 1;
    }
    total
}

} // verus!
