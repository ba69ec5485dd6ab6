use vstd::prelude::*;

verus! {

/// The highest height on the map.
pub const TOP: i8 = 9;

/// The grid is rectangular, and small enough that coordinates fit in an `i32`.
pub open spec fn grid_wf(g: Seq<Vec<i8>>) -> bool {
    &&& g.len() > 0
    &&& g.len() < 0x4000_0000
    &&& g[0]@.len() < 0x4000_0000
    &&& g.len() * g[0]@.len() <= u32::MAX
    &&& forall|y: int| 0 <= y < g.len() ==> (#[trigger] g[y])@.len() == g[0]@.len()
}

/// The number of hiking trails that continue at `(x, y)` after a cell of
/// height `prev`: each step goes up, down, left or right onto a cell exactly
/// one higher, and a trail ends on reaching height 9.
pub open spec fn trails(g: Seq<Vec<i8>>, x: int, y: int, prev: int) -> nat
    decreases TOP - prev,
{
    if y < 0 || y >= g.len() || x < 0 || x >= g[0]@.len() || prev >= TOP {
        0
    } else if g[y]@[x] != prev + 1 {
        0
    } else if g[y]@[x] == TOP {
        1
    } else {
        trails(g, x + 1, y, prev + 1) + trails(g, x - 1, y, prev + 1) + trails(g, x, y + 1, prev + 1) + trails(
            g,
            x,
            y - 1,
            prev + 1,
        )
    }
}

/// Four to the power `k`.
pub open spec fn four_pow(k: nat) -> nat
    decreases k,
{
    if k == 0 {
        1
    } else {
        4 * four_pow((k - 1) as nat)
    }
}

proof fn lemma_trails_bound(g: Seq<Vec<i8>>, x: int, y: int, prev: int)
    requires
        -1 <= prev,
    ensures
        prev < TOP ==> trails(g, x, y, prev) <= four_pow((TOP - 1 - prev) as nat),
        prev >= TOP ==> trails(g, x, y, prev) == 0,
    decreases TOP - prev,
{
    if prev < TOP - 1 {
        lemma_trails_bound(g, x + 1, y, prev + 1);
        lemma_trails_bound(g, x - 1, y, prev + 1);
        lemma_trails_bound(g, x, y + 1, prev + 1);
        lemma_trails_bound(g, x, y - 1, prev + 1);
    } else if prev == TOP - 1 {
        lemma_trails_bound(g, x + 1, y, prev + 1);
    }
}

/// The number of hiking trails that continue at `(x, y)` after a cell of
/// height `prev`.
pub fn search(contents: &Vec<Vec<i8>>, x: i32, y: i32, prev: i8) -> (r: u32)
    requires
        grid_wf(contents@),
        -1 <= prev <= TOP,
        -1 <= x <= contents@[0]@.len(),
        -1 <= y <= contents@.len(),
    ensures
        r == trails(contents@, x as int, y as int, prev as int),
    decreases TOP - prev,
{
    proof {
        lemma_trails_bound(contents@, x as int, y as int, prev as int);
    }
    if y < 0 || y >= contents.len() as i32 || x < 0 || x >= contents[0].len() as i32 || prev >= TOP {
        return 0;
    }
    let curr = contents[y as usize][x as usize];
    if curr != prev + 1 {
        return 0;
    }
    if curr == TOP {
        return 1;
    }
    proof {
        lemma_trails_bound(contents@, x + 1, y as int, curr as int);
        lemma_trails_bound(contents@, x - 1, y as int, curr as int);
        lemma_trails_bound(contents@, x as int, y + 1, curr as int);
        lemma_trails_bound(contents@, x as int, y - 1, curr as int);
        assert(four_pow((TOP - 1 - curr) as nat) * 4 == four_pow((TOP - 1 - prev) as nat));
        assert(four_pow((TOP - 1 - prev) as nat) <= four_pow(9)) by {
            lemma_four_pow_mono((TOP - 1 - prev) as nat, 9);
        }
        lemma_four_pow_9();
    }
    let mut count: u32 = 0;
    count = count + search(contents, x + 1, y, curr);
    count = count + search(contents, x - 1, y, curr);
    count = count + search(contents, x, y + 1, curr);
    count = count + search(contents, x, y - 1, curr);
    count
}

proof fn lemma_four_pow_9()
    ensures
        four_pow(9) == 262144,
{
    reveal_with_fuel(four_pow, 10);
}

proof fn lemma_four_pow_mono(a: nat, b: nat)
    requires
        a <= b,
    ensures
        four_pow(a) <= four_pow(b),
    decreases b - a,
{
    if a < b {
        lemma_four_pow_mono(a, (b - 1) as nat);
    }
}

/// The sum of the ratings of the trailheads (cells of height 0) among the
/// first `n` cells of row `y`.
pub open spec fn row_rating(g: Seq<Vec<i8>>, y: int, n: int) -> int
    decreases n,
{
    if n <= 0 {
        0
    } else {
        row_rating(g, y, n - 1) + if g[y]@[n - 1] == 0 {
            trails(g, n - 1, y, -1) as int
        } else {
            0
        }
    }
}

/// The sum of the ratings of the trailheads in the first `n` rows.
pub open spec fn rating_sum(g: Seq<Vec<i8>>, n: int) -> int
    decreases n,
{
    if n <= 0 {
        0
    } else {
        rating_sum(g, n - 1) + row_rating(g, n - 1, g[0]@.len() as int)
    }
}

proof fn lemma_row_rating_bound(g: Seq<Vec<i8>>, y: int, n: int)
    requires
        0 <= n,
    ensures
        0 <= row_rating(g, y, n) <= n * 262144,
    decreases n,
{
    if n > 0 {
        lemma_row_rating_bound(g, y, n - 1);
        lemma_trails_bound(g, n - 1, y, -1);
        lemma_four_pow_9();
    }
}

proof fn lemma_rating_sum_bound(g: Seq<Vec<i8>>, n: int)
    requires
        0 <= n,
    ensures
        0 <= rating_sum(g, n) <= n * (g[0]@.len() * 262144),
    decreases n,
{
    if n > 0 {
        lemma_rating_sum_bound(g, n - 1);
        lemma_row_rating_bound(g, n - 1, g[0]@.len() as int);
        assert((n - 1) * (g[0]@.len() * 262144) + g[0]@.len() * 262144 == n * (g[0]@.len() * 262144)) by (nonlinear_arith);
    }
}

/// The sum of the ratings of all trailheads: for each cell of height 0, the
/// number of hiking trails that start there.
pub fn find_trail_head_and_search(contents: &Vec<Vec<i8>>) -> (r: u64)
    requires
        grid_wf(contents@),
    ensures
        r == rating_sum(contents@, contents@.len() as int),
{
    let width = contents[0].len();
    let mut count: u64 = 0;
    let mut y: usize = 0;
    while y < contents.len()
        invariant
            grid_wf(contents@),
            width == contents@[0]@.len(),
            y <= contents.len(),
            count == rating_sum(contents@, y as int),
        decreases contents.len() - y,
    {
        let mut x: usize = 0;
        let ghost base = count;
        proof {
            lemma_rating_sum_bound(contents@, y + 1);
            assert((y + 1) * (width * 262144) <= u32::MAX * 262144) by (nonlinear_arith)
                requires
                    y + 1 <= contents@.len(),
                    contents@.len() * width <= u32::MAX,
            ;
        }
        while x < width
            invariant
                grid_wf(contents@),
                width == contents@[0]@.len(),
                y < contents.len(),
                x <= width,
                base == rating_sum(contents@, y as int),
                count == base + row_rating(contents@, y as int, x as int),
                rating_sum(contents@, y + 1) <= u64::MAX,
            decreases width - x,
        {
            proof {
                lemma_row_rating_bound(contents@, y as int, x + 1);
                lemma_row_rating_prefix(contents@, y as int, x + 1, width as int);
            }
            if contents[y][x] == 0 {
                count = count + search(contents, x as i32, y as i32, -1) as u64;
            }
            x = x + 1;
        }
        y = y + 1;
    }
    count
}

proof fn lemma_row_rating_prefix(g: Seq<Vec<i8>>, y: int, m: int, n: int)
    requires
        0 <= m <= n,
    ensures
        row_rating(g, y, m) <= row_rating(g, y, n),
    decreases n - m,
{
    if m < n {
        lemma_row_rating_prefix(g, y, m, n - 1);
    }
}


/// `(x, y)` is a cell of height `h` that a hiking trail from the trailhead
/// `(sx, sy)` reaches, climbing one height at each step.
pub open spec fn reaches(g: Seq<Vec<i8>>, sx: int, sy: int, x: int, y: int, h: int) -> bool
    decreases h,
{
    if y < 0 || y >= g.len() || x < 0 || x >= g[0]@.len() || h < 0 || g[y]@[x] != h {
        false
    } else if h == 0 {
        x == sx && y == sy
    } else {
        reaches(g, sx, sy, x + 1, y, h - 1) || reaches(g, sx, sy, x - 1, y, h - 1) || reaches(g, sx, sy, x, y + 1, h - 1)
            || reaches(g, sx, sy, x, y - 1, h - 1)
    }
}

/// How many of the first `n` cells of row `y` are summits (height 9) that a
/// trail from `(sx, sy)` reaches.
pub open spec fn row_summits(g: Seq<Vec<i8>>, sx: int, sy: int, y: int, n: int) -> int
    decreases n,
{
    if n <= 0 {
        0
    } else {
        row_summits(g, sx, sy, y, n - 1) + if reaches(g, sx, sy, n - 1, y, TOP as int) {
            1int
        } else {
            0int
        }
    }
}

/// How many summits in the first `n` rows a trail from `(sx, sy)` reaches:
/// the trailhead's score.
pub open spec fn summits(g: Seq<Vec<i8>>, sx: int, sy: int, n: int) -> int
    decreases n,
{
    if n <= 0 {
        0
    } else {
        summits(g, sx, sy, n - 1) + row_summits(g, sx, sy, n - 1, g[0]@.len() as int)
    }
}

/// The index of cell `(x, y)` in a row-by-row layout `w` cells wide.
pub open spec fn flat(w: int, x: int, y: int) -> int {
    y * w + x
}

pub proof fn lemma_flat_bounds(w: int, h: int, x: int, y: int)
    requires
        0 <= x < w,
        0 <= y < h,
    ensures
        0 <= flat(w, x, y) < w * h,
        flat(w, x, y) + w == flat(w, x, y + 1),
        flat(w, x, y) - w == flat(w, x, y - 1),
{
    assert(0 <= y * w + x < w * h) by (nonlinear_arith)
        requires
            0 <= x < w,
            0 <= y < h,
    ;
    assert((y + 1) * w == y * w + w) by (nonlinear_arith);
    assert((y - 1) * w == y * w - w) by (nonlinear_arith);
}

pub proof fn lemma_flat_inj(w: int, x1: int, y1: int, x2: int, y2: int)
    requires
        0 <= x1 < w,
        0 <= x2 < w,
        0 <= y1,
        0 <= y2,
        flat(w, x1, y1) == flat(w, x2, y2),
    ensures
        x1 == x2 && y1 == y2,
{
    if y1 < y2 {
        assert(y1 * w + x1 < y2 * w + x2) by (nonlinear_arith)
            requires
                y1 < y2,
                0 <= x1 < w,
                0 <= x2,
        ;
    } else if y2 < y1 {
        assert(y2 * w + x2 < y1 * w + x1) by (nonlinear_arith)
            requires
                y2 < y1,
                0 <= x2 < w,
                0 <= x1,
        ;
    }
}

proof fn lemma_neighbour(
    g: Seq<Vec<i8>>,
    sx: int,
    sy: int,
    marks: Seq<bool>,
    w: int,
    rows: int,
    h: int,
    nx: int,
    ny: int,
)
    requires
        g.len() == rows,
        g[0]@.len() == w,
        1 <= h,
        forall|x: int, y: int|
            0 <= x < w && 0 <= y < rows && g[y]@[x] < h ==> #[trigger] marks[flat(w, x, y)] == reaches(
                g,
                sx,
                sy,
                x,
                y,
                g[y]@[x] as int,
            ),
    ensures
        reaches(g, sx, sy, nx, ny, h - 1) == (0 <= nx < w && 0 <= ny < rows && g[ny]@[nx] == h - 1 && marks[flat(
            w,
            nx,
            ny,
        )]),
{
    if 0 <= nx < w && 0 <= ny < rows && g[ny]@[nx] == h - 1 {
        assert(marks[flat(w, nx, ny)] == reaches(g, sx, sy, nx, ny, g[ny]@[nx] as int));
    }
}

/// Whether cell `(x, y)` is inside the grid and marked.
fn marked_at(marks: &Vec<bool>, w: usize, rows: usize, x: i64, y: i64) -> (r: bool)
    requires
        marks@.len() == w * rows,
        w * rows <= u32::MAX,
        w < 0x4000_0000,
        rows < 0x4000_0000,
    ensures
        r == (0 <= x < w && 0 <= y < rows && marks@[flat(w as int, x as int, y as int)]),
{
    if x < 0 || y < 0 || x >= w as i64 || y >= rows as i64 {
        return false;
    }
    proof {
        lemma_flat_bounds(w as int, rows as int, x as int, y as int);
        assert((y as int) * (w as int) <= (w as int) * (rows as int)) by (nonlinear_arith)
            requires
                0 <= y < rows,
                w >= 0,
        ;
    }
    marks[(y as usize) * w + (x as usize)]
}

/// The number of summits (cells of height 9) that hiking trails from the
/// trailhead `(sx, sy)` reach.
pub fn summit_score(contents: &Vec<Vec<i8>>, sx: usize, sy: usize) -> (r: u64)
    requires
        grid_wf(contents@),
        sy < contents@.len(),
        sx < contents@[0]@.len(),
    ensures
        r == summits(contents@, sx as int, sy as int, contents@.len() as int),
{
    let w = contents[0].len();
    let rows = contents.len();
    let ghost g = contents@;
    proof {
        assert(w * rows <= u32::MAX) by (nonlinear_arith)
            requires
                rows * w <= u32::MAX,
        ;
    }
    let mut marks: Vec<bool> = Vec::new();
    let mut k: usize = 0;
    while k < w * rows
        invariant
            k <= w * rows,
            w * rows <= u32::MAX,
            marks@.len() == k,
            forall|j: int| 0 <= j < k ==> !#[trigger] marks@[j],
        decreases w * rows - k,
    {
        marks.push(false);
        k = k + 1;
    }
    proof {
        lemma_flat_bounds(w as int, rows as int, sx as int, sy as int);
    }
    if contents[sy][sx] == 0 {
        marks.set(sy * w + sx, true);
    }
    proof {
        assert forall|x: int, y: int| 0 <= x < w && 0 <= y < rows && g[y]@[x] <= 0 implies marks@[flat(w as int, x, y)]
            == reaches(g, sx as int, sy as int, x, y, g[y]@[x] as int) by {
            lemma_flat_bounds(w as int, rows as int, x, y);
            if flat(w as int, x, y) == flat(w as int, sx as int, sy as int) {
                lemma_flat_inj(w as int, x, y, sx as int, sy as int);
            }
        }
        assert forall|x: int, y: int| 0 <= x < w && 0 <= y < rows && g[y]@[x] >= 1 implies !#[trigger] marks@[flat(
            w as int,
            x,
            y,
        )] by {
            lemma_flat_bounds(w as int, rows as int, x, y);
            if flat(w as int, x, y) == flat(w as int, sx as int, sy as int) {
                lemma_flat_inj(w as int, x, y, sx as int, sy as int);
            }
        }
    }
    let mut h: i8 = 1;
    while h <= TOP
        invariant
            grid_wf(contents@),
            g == contents@,
            w == g[0]@.len(),
            rows == g.len(),
            w * rows <= u32::MAX,
            marks@.len() == w * rows,
            sy < rows,
            sx < w,
            1 <= h <= TOP + 1,
            forall|x: int, y: int|
                0 <= x < w && 0 <= y < rows && g[y]@[x] < h ==> #[trigger] marks@[flat(w as int, x, y)] == reaches(
                    g,
                    sx as int,
                    sy as int,
                    x,
                    y,
                    g[y]@[x] as int,
                ),
            forall|x: int, y: int|
                0 <= x < w && 0 <= y < rows && g[y]@[x] >= h ==> !#[trigger] marks@[flat(w as int, x, y)],
        decreases TOP + 1 - h,
    {
        let mut y: usize = 0;
        while y < rows
            invariant
                grid_wf(contents@),
                g == contents@,
                w == g[0]@.len(),
                rows == g.len(),
                w * rows <= u32::MAX,
                marks@.len() == w * rows,
                1 <= h <= TOP,
                y <= rows,
                forall|x2: int, y2: int|
                    0 <= x2 < w && 0 <= y2 < rows && (g[y2]@[x2] < h || (g[y2]@[x2] == h && y2 < y))
                        ==> #[trigger] marks@[flat(w as int, x2, y2)] == reaches(
                        g,
                        sx as int,
                        sy as int,
                        x2,
                        y2,
                        g[y2]@[x2] as int,
                    ),
                forall|x2: int, y2: int|
                    0 <= x2 < w && 0 <= y2 < rows && (g[y2]@[x2] > h || (g[y2]@[x2] == h && y2 >= y))
                        ==> !#[trigger] marks@[flat(w as int, x2, y2)],
            decreases rows - y,
        {
            let mut x: usize = 0;
            while x < w
                invariant
                    grid_wf(contents@),
                    g == contents@,
                    w == g[0]@.len(),
                    rows == g.len(),
                    w * rows <= u32::MAX,
                    marks@.len() == w * rows,
                    1 <= h <= TOP,
                    y < rows,
                    x <= w,
                    forall|x2: int, y2: int|
                        0 <= x2 < w && 0 <= y2 < rows && (g[y2]@[x2] < h || (g[y2]@[x2] == h && (y2 < y || (y2
                            == y && x2 < x)))) ==> #[trigger] marks@[flat(w as int, x2, y2)] == reaches(
                            g,
                            sx as int,
                            sy as int,
                            x2,
                            y2,
                            g[y2]@[x2] as int,
                        ),
                    forall|x2: int, y2: int|
                        0 <= x2 < w && 0 <= y2 < rows && (g[y2]@[x2] > h || (g[y2]@[x2] == h && (y2 > y || (y2
                            == y && x2 >= x)))) ==> !#[trigger] marks@[flat(w as int, x2, y2)],
                decreases w - x,
            {
                proof {
                    lemma_flat_bounds(w as int, rows as int, x as int, y as int);
                }
                let ghost m0 = marks@;
                let ghost reach_here = reaches(g, sx as int, sy as int, x as int, y as int, h as int);
                if contents[y][x] == h {
                    let xi = x as i64;
                    let yi = y as i64;
                    let reach = marked_at(&marks, w, rows, xi + 1, yi) && contents[y][x + 1] == h - 1
                        || marked_at(&marks, w, rows, xi - 1, yi) && contents[y][x - 1] == h - 1
                        || marked_at(&marks, w, rows, xi, yi + 1) && contents[y + 1][x] == h - 1
                        || marked_at(&marks, w, rows, xi, yi - 1) && contents[y - 1][x] == h - 1;
                    proof {
                        let (xx, yy) = (x as int, y as int);
                        let hh = h as int;
                        lemma_neighbour(g, sx as int, sy as int, marks@, w as int, rows as int, hh, xx + 1, yy);
                        lemma_neighbour(g, sx as int, sy as int, marks@, w as int, rows as int, hh, xx - 1, yy);
                        lemma_neighbour(g, sx as int, sy as int, marks@, w as int, rows as int, hh, xx, yy + 1);
                        lemma_neighbour(g, sx as int, sy as int, marks@, w as int, rows as int, hh, xx, yy - 1);
                        assert(reach == reaches(g, sx as int, sy as int, xx, yy, hh));
                    }
                    if reach {
                        marks.set(y * w + x, true);
                    }
                }
                proof {
                    let here = flat(w as int, x as int, y as int);
                    assert(marks@ == m0 || (g[y as int]@[x as int] == h && reach_here && marks@ == m0.update(here, true)));
                    assert(g[y as int]@[x as int] == h ==> marks@[here] == reach_here);
                    assert forall|x2: int, y2: int|
                        0 <= x2 < w && 0 <= y2 < rows && (g[y2]@[x2] < h || (g[y2]@[x2] == h && (y2 < y || (y2 == y
                            && x2 < x + 1)))) implies #[trigger] marks@[flat(w as int, x2, y2)] == reaches(
                        g,
                        sx as int,
                        sy as int,
                        x2,
                        y2,
                        g[y2]@[x2] as int,
                    ) by {
                        lemma_flat_bounds(w as int, rows as int, x2, y2);
                        if flat(w as int, x2, y2) == here {
                            lemma_flat_inj(w as int, x2, y2, x as int, y as int);
                        } else {
                            assert(marks@[flat(w as int, x2, y2)] == m0[flat(w as int, x2, y2)]);
                        }
                    }
                    assert forall|x2: int, y2: int|
                        0 <= x2 < w && 0 <= y2 < rows && (g[y2]@[x2] > h || (g[y2]@[x2] == h && (y2 > y || (y2 == y
                            && x2 >= x + 1)))) implies !#[trigger] marks@[flat(w as int, x2, y2)] by {
                        lemma_flat_bounds(w as int, rows as int, x2, y2);
                        if flat(w as int, x2, y2) == here {
                            lemma_flat_inj(w as int, x2, y2, x as int, y as int);
                        } else {
                            assert(marks@[flat(w as int, x2, y2)] == m0[flat(w as int, x2, y2)]);
                        }
                    }
                }
                x = x + 1;
            }
            y = y + 1;
        }
        h = h + 1;
    }
    let mut count: u64 = 0;
    let mut y: usize = 0;
    while y < rows
        invariant
            grid_wf(contents@),
            g == contents@,
            w == g[0]@.len(),
            rows == g.len(),
            marks@.len() == w * rows,
            y <= rows,
            count == summits(g, sx as int, sy as int, y as int),
            count <= y * w,
            w * rows <= u32::MAX,
            forall|x2: int, y2: int|
                0 <= x2 < w && 0 <= y2 < rows && g[y2]@[x2] == TOP ==> #[trigger] marks@[flat(w as int, x2, y2)] == reaches(
                    g,
                    sx as int,
                    sy as int,
                    x2,
                    y2,
                    TOP as int,
                ),
        decreases rows - y,
    {
        let mut x: usize = 0;
        let ghost base = count;
        while x < w
            invariant
                grid_wf(contents@),
                g == contents@,
                w == g[0]@.len(),
                rows == g.len(),
                marks@.len() == w * rows,
                y < rows,
                x <= w,
                base == summits(g, sx as int, sy as int, y as int),
                base <= y * w,
                count == base + row_summits(g, sx as int, sy as int, y as int, x as int),
                count <= base + x,
                w * rows <= u32::MAX,
                forall|x2: int, y2: int|
                    0 <= x2 < w && 0 <= y2 < rows && g[y2]@[x2] == TOP ==> #[trigger] marks@[flat(w as int, x2, y2)]
                        == reaches(g, sx as int, sy as int, x2, y2, TOP as int),
            decreases w - x,
        {
            proof {
                lemma_flat_bounds(w as int, rows as int, x as int, y as int);
                assert(y * w + x + 1 <= w * rows) by (nonlinear_arith)
                    requires
                        y < rows,
                        x < w,
                ;
            }
            if contents[y][x] == TOP && marks[y * w + x] {
                count = count + 1;
            }
            x = x + 1;
        }
        proof {
            assert(y * w + w == (y + 1) * w) by (nonlinear_arith);
        }
        y = y + 1;
    }
    count
}

/// The sum of the scores of all trailheads.
pub open spec fn score_sum(g: Seq<Vec<i8>>, n: int) -> int
    decreases n,
{
    if n <= 0 {
        0
    } else {
        score_sum(g, n - 1) + row_scores(g, n - 1, g[0]@.len() as int)
    }
}

/// The sum of the scores of the trailheads among the first `n` cells of row `y`.
pub open spec fn row_scores(g: Seq<Vec<i8>>, y: int, n: int) -> int
    decreases n,
{
    if n <= 0 {
        0
    } else {
        row_scores(g, y, n - 1) + if g[y]@[n - 1] == 0 {
            summits(g, n - 1, y, g.len() as int)
        } else {
            0
        }
    }
}


proof fn lemma_row_summits_bound(g: Seq<Vec<i8>>, sx: int, sy: int, y: int, n: int)
    requires
        0 <= n,
    ensures
        0 <= row_summits(g, sx, sy, y, n) <= n,
    decreases n,
{
    if n > 0 {
        lemma_row_summits_bound(g, sx, sy, y, n - 1);
    }
}

proof fn lemma_summits_bound(g: Seq<Vec<i8>>, sx: int, sy: int, n: int)
    requires
        0 <= n,
    ensures
        0 <= summits(g, sx, sy, n) <= n * g[0]@.len(),
    decreases n,
{
    if n > 0 {
        lemma_summits_bound(g, sx, sy, n - 1);
        lemma_row_summits_bound(g, sx, sy, n - 1, g[0]@.len() as int);
        assert((n - 1) * g[0]@.len() + g[0]@.len() == n * g[0]@.len()) by (nonlinear_arith);
    }
}

proof fn lemma_row_scores_bound(g: Seq<Vec<i8>>, y: int, n: int)
    requires
        0 <= n,
    ensures
        0 <= row_scores(g, y, n) <= n * (g.len() * g[0]@.len()),
    decreases n,
{
    if n > 0 {
        lemma_row_scores_bound(g, y, n - 1);
        lemma_summits_bound(g, n - 1, y, g.len() as int);
        assert((n - 1) * (g.len() * g[0]@.len()) + g.len() * g[0]@.len() == n * (g.len() * g[0]@.len())) by (nonlinear_arith);
    }
}

proof fn lemma_score_sum_bound(g: Seq<Vec<i8>>, n: int)
    requires
        0 <= n,
    ensures
        0 <= score_sum(g, n) <= n * (g[0]@.len() * (g.len() * g[0]@.len())),
    decreases n,
{
    if n > 0 {
        lemma_score_sum_bound(g, n - 1);
        lemma_row_scores_bound(g, n - 1, g[0]@.len() as int);
        let c = g[0]@.len() * (g.len() * g[0]@.len());
        assert((n - 1) * c + c == n * c) by (nonlinear_arith);
    }
}

proof fn lemma_row_scores_prefix(g: Seq<Vec<i8>>, y: int, m: int, n: int)
    requires
        0 <= m <= n,
        forall|k: int| 0 <= k < n ==> 0 <= #[trigger] summits(g, k, y, g.len() as int),
    ensures
        row_scores(g, y, m) <= row_scores(g, y, n),
    decreases n - m,
{
    if m < n {
        lemma_row_scores_prefix(g, y, m, n - 1);
    }
}

/// The sum of the scores of all trailheads: for each cell of height 0, the
/// number of summits that hiking trails from it reach.
pub fn count_summits(contents: &Vec<Vec<i8>>) -> (r: u64)
    requires
        grid_wf(contents@),
    ensures
        r == score_sum(contents@, contents@.len() as int),
{
    let w = contents[0].len();
    let ghost g = contents@;
    let mut count: u64 = 0;
    let mut y: usize = 0;
    while y < contents.len()
        invariant
            grid_wf(contents@),
            g == contents@,
            w == g[0]@.len(),
            y <= contents.len(),
            count == score_sum(g, y as int),
        decreases contents.len() - y,
    {
        let mut x: usize = 0;
        let ghost base = count;
        proof {
            lemma_score_sum_bound(g, y + 1);
            let n = g.len();
            assert((y + 1) * (w * (n * w)) <= (n * w) * (n * w)) by (nonlinear_arith)
                requires
                    y + 1 <= n,
            ;
            assert((n * w) * (n * w) <= u32::MAX * u32::MAX) by (nonlinear_arith)
                requires
                    n * w <= u32::MAX,
                    n * w >= 0,
            ;
            assert forall|k: int| 0 <= k < w implies 0 <= #[trigger] summits(g, k, y as int, g.len() as int) by {
                lemma_summits_bound(g, k, y as int, g.len() as int);
            }
        }
        while x < w
            invariant
                grid_wf(contents@),
                g == contents@,
                w == g[0]@.len(),
                y < contents.len(),
                x <= w,
                base == score_sum(g, y as int),
                count == base + row_scores(g, y as int, x as int),
                score_sum(g, y + 1) <= u64::MAX,
                forall|k: int| 0 <= k < w ==> 0 <= #[trigger] summits(g, k, y as int, g.len() as int),
            decreases w - x,
        {
            proof {
                lemma_row_scores_prefix(g, y as int, x + 1, w as int);
                lemma_row_scores_bound(g, y as int, x + 1);
            }
            if contents[y][x] == 0 {
                count = count + summit_score(contents, x, y);
            }
            x = x + 1;
        }
        y = y + 1;
    }
    count
}

} // verus!
