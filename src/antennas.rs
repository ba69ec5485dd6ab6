use vstd::prelude::*;
use crate::trails::{flat, lemma_flat_bounds, lemma_flat_inj};

verus! {

/// `.`: a cell without an antenna.
pub const EMPTY: u8 = 46;

/// The largest side of a map.
pub const MAX_SIDE: usize = 0x1000_0000;

/// An antenna: its column, its row and its frequency.
pub type Antenna = (i64, i64, u8);

/// The point `k` steps of `b - a` beyond `b`.
pub open spec fn ray_point(a: Antenna, b: Antenna, k: int) -> (int, int) {
    (b.0 + k * (b.0 - a.0), b.1 + k * (b.1 - a.1))
}

/// The pair `(a, b)` puts an antinode on `(x, y)`: one step of `b - a` beyond
/// `b`; with `resonant`, any whole number of steps from 0 on.
pub open spec fn pair_hits(a: Antenna, b: Antenna, resonant: bool, x: int, y: int) -> bool {
    if resonant {
        exists|k: int| k >= 0 && #[trigger] ray_point(a, b, k) == (x, y)
    } else {
        ray_point(a, b, 1) == (x, y)
    }
}

/// Antennas `i` and `j` are two different antennas of one frequency.
pub open spec fn is_pair(ants: Seq<Antenna>, i: int, j: int) -> bool {
    0 <= i < ants.len() && 0 <= j < ants.len() && i != j && ants[i].2 == ants[j].2
}

/// Some pair `(i, j)` that comes before `(bi, bj)` (by `i`, then `j`) puts an
/// antinode on `(x, y)`.
pub open spec fn hit_before(ants: Seq<Antenna>, resonant: bool, bi: int, bj: int, x: int, y: int) -> bool {
    exists|i: int, j: int|
        (i < bi || (i == bi && j < bj)) && is_pair(ants, i, j) && #[trigger] pair_hits(ants[i], ants[j], resonant, x, y)
}

/// `(x, y)` is an antinode of some pair of antennas.
pub open spec fn is_antinode(ants: Seq<Antenna>, resonant: bool, x: int, y: int) -> bool {
    hit_before(ants, resonant, ants.len() as int, 0, x, y)
}

/// How many of the first `n` cells of row `y` are antinodes.
pub open spec fn row_antinodes(ants: Seq<Antenna>, resonant: bool, y: int, n: int) -> int
    decreases n,
{
    if n <= 0 {
        0
    } else {
        row_antinodes(ants, resonant, y, n - 1) + if is_antinode(ants, resonant, n - 1, y) {
            1int
        } else {
            0int
        }
    }
}

/// How many cells of the first `n` rows, `w` wide, are antinodes.
pub open spec fn antinode_count(ants: Seq<Antenna>, resonant: bool, w: int, n: int) -> int
    decreases n,
{
    if n <= 0 {
        0
    } else {
        antinode_count(ants, resonant, w, n - 1) + row_antinodes(ants, resonant, n - 1, w)
    }
}

/// Every antenna lies on the `w` by `h` map.
pub open spec fn on_map(ants: Seq<Antenna>, w: int, h: int) -> bool {
    forall|i: int| 0 <= i < ants.len() ==> 0 <= (#[trigger] ants[i]).0 < w && 0 <= ants[i].1 < h
}

/// The marks hold exactly the cells hit by the pairs before `(bi, bj)`.
pub open spec fn marks_ok(marks: Seq<bool>, ants: Seq<Antenna>, resonant: bool, w: int, h: int, bi: int, bj: int) -> bool {
    forall|x: int, y: int|
        0 <= x < w && 0 <= y < h ==> #[trigger] marks[flat(w, x, y)] == hit_before(ants, resonant, bi, bj, x, y)
}

proof fn lemma_ray_leaves(a: Antenna, b: Antenna, w: int, h: int, k: int)
    requires
        0 <= a.0 < w,
        0 <= a.1 < h,
        0 <= b.0 < w,
        0 <= b.1 < h,
        (a.0, a.1) != (b.0, b.1),
        k > w + h,
    ensures
        !(0 <= ray_point(a, b, k).0 < w && 0 <= ray_point(a, b, k).1 < h),
{
    let dx = b.0 - a.0;
    let dy = b.1 - a.1;
    if dx != 0 {
        assert(k * dx >= k || k * dx <= -k) by (nonlinear_arith)
            requires
                dx != 0,
                k > 0,
        ;
    } else {
        assert(k * dy >= k || k * dy <= -k) by (nonlinear_arith)
            requires
                dy != 0,
                k > 0,
        ;
    }
}

/// Marks cell `(x, y)` if it lies on the map.
fn mark(marks: &mut Vec<bool>, w: usize, h: usize, x: i64, y: i64)
    requires
        old(marks)@.len() == w * h,
        w * h <= u32::MAX,
    ensures
        final(marks)@.len() == w * h,
        forall|x2: int, y2: int|
            0 <= x2 < w && 0 <= y2 < h ==> #[trigger] final(marks)@[flat(w as int, x2, y2)] == (old(marks)@[flat(
                w as int,
                x2,
                y2,
            )] || (x2 == x && y2 == y)),
{
    if x < 0 || y < 0 || x as u64 >= w as u64 || y as u64 >= h as u64 {
        proof {
            assert forall|x2: int, y2: int| 0 <= x2 < w && 0 <= y2 < h implies #[trigger] marks@[flat(w as int, x2, y2)]
                == (old(marks)@[flat(w as int, x2, y2)] || (x2 == x && y2 == y)) by {}
        }
        return;
    }
    proof {
        lemma_flat_bounds(w as int, h as int, x as int, y as int);
        assert((y as int) * (w as int) <= (w as int) * (h as int)) by (nonlinear_arith)
            requires
                0 <= y < h,
                w >= 0,
        ;
    }
    let idx = (y as usize) * w + (x as usize);
    marks.set(idx, true);
    proof {
        assert forall|x2: int, y2: int| 0 <= x2 < w && 0 <= y2 < h implies #[trigger] marks@[flat(w as int, x2, y2)]
            == (old(marks)@[flat(w as int, x2, y2)] || (x2 == x && y2 == y)) by {
            lemma_flat_bounds(w as int, h as int, x2, y2);
            if flat(w as int, x2, y2) == idx {
                lemma_flat_inj(w as int, x2, y2, x as int, y as int);
            }
        }
    }
}


proof fn lemma_hit_next(ants: Seq<Antenna>, resonant: bool, i: int, j: int, x: int, y: int)
    requires
        0 <= i < ants.len(),
        0 <= j,
    ensures
        hit_before(ants, resonant, i, j + 1, x, y) == (hit_before(ants, resonant, i, j, x, y) || (is_pair(ants, i, j)
            && pair_hits(ants[i], ants[j], resonant, x, y))),
{
    if hit_before(ants, resonant, i, j + 1, x, y) {
        let (i2, j2) = choose|i2: int, j2: int|
            (i2 < i || (i2 == i && j2 < j + 1)) && is_pair(ants, i2, j2) && #[trigger] pair_hits(
                ants[i2],
                ants[j2],
                resonant,
                x,
                y,
            );
        if !(i2 == i && j2 == j) {
            assert(hit_before(ants, resonant, i, j, x, y));
        }
    }
    if hit_before(ants, resonant, i, j, x, y) {
        let (i2, j2) = choose|i2: int, j2: int|
            (i2 < i || (i2 == i && j2 < j)) && is_pair(ants, i2, j2) && #[trigger] pair_hits(
                ants[i2],
                ants[j2],
                resonant,
                x,
                y,
            );
        assert(hit_before(ants, resonant, i, j + 1, x, y));
    }
    if is_pair(ants, i, j) && pair_hits(ants[i], ants[j], resonant, x, y) {
        assert(hit_before(ants, resonant, i, j + 1, x, y));
    }
}

proof fn lemma_hit_row_end(ants: Seq<Antenna>, resonant: bool, i: int, x: int, y: int)
    requires
        0 <= i,
    ensures
        hit_before(ants, resonant, i, ants.len() as int, x, y) == hit_before(ants, resonant, i + 1, 0, x, y),
{
    if hit_before(ants, resonant, i + 1, 0, x, y) {
        let (i2, j2) = choose|i2: int, j2: int|
            (i2 < i + 1 || (i2 == i + 1 && j2 < 0)) && is_pair(ants, i2, j2) && #[trigger] pair_hits(
                ants[i2],
                ants[j2],
                resonant,
                x,
                y,
            );
        assert(hit_before(ants, resonant, i, ants.len() as int, x, y));
    }
    if hit_before(ants, resonant, i, ants.len() as int, x, y) {
        let (i2, j2) = choose|i2: int, j2: int|
            (i2 < i || (i2 == i && j2 < ants.len())) && is_pair(ants, i2, j2) && #[trigger] pair_hits(
                ants[i2],
                ants[j2],
                resonant,
                x,
                y,
            );
        assert(hit_before(ants, resonant, i + 1, 0, x, y));
    }
}

/// The antennas stand on different cells.
pub open spec fn distinct_cells(ants: Seq<Antenna>) -> bool {
    forall|i: int, j: int|
        0 <= i < ants.len() && 0 <= j < ants.len() && i != j ==> (#[trigger] ants[i].0, ants[i].1) != (
        #[trigger] ants[j].0,
        ants[j].1,
    )
}

/// Marks every cell of the `w` by `h` map that is an antinode.
fn mark_antinodes(ants: &Vec<Antenna>, w: usize, h: usize, resonant: bool) -> (marks: Vec<bool>)
    requires
        on_map(ants@, w as int, h as int),
        distinct_cells(ants@),
        w <= MAX_SIDE,
        h <= MAX_SIDE,
        w * h <= u32::MAX,
    ensures
        marks@.len() == w * h,
        marks_ok(marks@, ants@, resonant, w as int, h as int, ants@.len() as int, 0),
{
    let mut marks: Vec<bool> = Vec::new();
    let mut c: usize = 0;
    while c < w * h
        invariant
            c <= w * h,
            w * h <= u32::MAX,
            marks@.len() == c,
            forall|k: int| 0 <= k < c ==> !#[trigger] marks@[k],
        decreases w * h - c,
    {
        marks.push(false);
        c = c + 1;
    }
    proof {
        assert forall|x: int, y: int| 0 <= x < w && 0 <= y < h implies #[trigger] marks@[flat(w as int, x, y)]
            == hit_before(ants@, resonant, 0, 0, x, y) by {
            lemma_flat_bounds(w as int, h as int, x, y);
        }
    }
    let mut i: usize = 0;
    while i < ants.len()
        invariant
            on_map(ants@, w as int, h as int),
            distinct_cells(ants@),
            w <= MAX_SIDE,
            h <= MAX_SIDE,
            w * h <= u32::MAX,
            marks@.len() == w * h,
            i <= ants.len(),
            marks_ok(marks@, ants@, resonant, w as int, h as int, i as int, 0),
        decreases ants.len() - i,
    {
        let mut j: usize = 0;
        while j < ants.len()
            invariant
                on_map(ants@, w as int, h as int),
                distinct_cells(ants@),
                w <= MAX_SIDE,
                h <= MAX_SIDE,
                w * h <= u32::MAX,
                marks@.len() == w * h,
                i < ants.len(),
                j <= ants.len(),
                marks_ok(marks@, ants@, resonant, w as int, h as int, i as int, j as int),
            decreases ants.len() - j,
        {
            let a = ants[i];
            let b = ants[j];
            let ghost m0 = marks@;
            if i != j && a.2 == b.2 {
                assert(0 <= a.0 < w && 0 <= a.1 < h && 0 <= b.0 < w && 0 <= b.1 < h);
                if !resonant {
                    mark(&mut marks, w, h, 2 * b.0 - a.0, 2 * b.1 - a.1);
                    proof {
                        assert forall|x: int, y: int| 0 <= x < w && 0 <= y < h implies #[trigger] marks@[flat(w as int, x, y)]
                            == hit_before(ants@, resonant, i as int, j + 1, x, y) by {
                            lemma_hit_next(ants@, resonant, i as int, j as int, x, y);
                        }
                    }
                } else {
                    let limit: i64 = (w + h) as i64;
                    let mut k: i64 = 0;
                    while k <= limit
                        invariant
                            0 <= a.0 < w,
                            0 <= a.1 < h,
                            0 <= b.0 < w,
                            0 <= b.1 < h,
                            w <= MAX_SIDE,
                            h <= MAX_SIDE,
                            w * h <= u32::MAX,
                            limit == w + h,
                            0 <= k <= limit + 1,
                            marks@.len() == w * h,
                            forall|x: int, y: int|
                                0 <= x < w && 0 <= y < h ==> #[trigger] marks@[flat(w as int, x, y)] == (m0[flat(
                                    w as int,
                                    x,
                                    y,
                                )] || exists|k2: int| 0 <= k2 < k && #[trigger] ray_point(a, b, k2) == (x, y)),
                        decreases limit + 1 - k,
                    {
                        let dx = b.0 - a.0;
                        let dy = b.1 - a.1;
                        assert(-0x0400_0000_0000_0000 <= k * dx <= 0x0400_0000_0000_0000) by (nonlinear_arith)
                            requires
                                0 <= k <= 0x2000_0001,
                                -0x1000_0000 <= dx <= 0x1000_0000,
                        ;
                        assert(-0x0400_0000_0000_0000 <= k * dy <= 0x0400_0000_0000_0000) by (nonlinear_arith)
                            requires
                                0 <= k <= 0x2000_0001,
                                -0x1000_0000 <= dy <= 0x1000_0000,
                        ;
                        let ghost m1 = marks@;
                        mark(&mut marks, w, h, b.0 + k * dx, b.1 + k * dy);
                        proof {
                            assert forall|x: int, y: int| 0 <= x < w && 0 <= y < h implies #[trigger] marks@[flat(
                                w as int,
                                x,
                                y,
                            )] == (m0[flat(w as int, x, y)] || exists|k2: int|
                                0 <= k2 < k + 1 && #[trigger] ray_point(a, b, k2) == (x, y)) by {
                                if x == b.0 + k * dx && y == b.1 + k * dy {
                                    assert(ray_point(a, b, k as int) == (x, y));
                                }
                                if exists|k2: int| 0 <= k2 < k + 1 && #[trigger] ray_point(a, b, k2) == (x, y) {
                                    let k2 = choose|k2: int| 0 <= k2 < k + 1 && #[trigger] ray_point(a, b, k2) == (x, y);
                                    if k2 < k {
                                        assert(exists|k3: int| 0 <= k3 < k && #[trigger] ray_point(a, b, k3) == (x, y));
                                    }
                                }
                            }
                        }
                        k = k + 1;
                    }
                    proof {
                        assert((a.0, a.1) != (b.0, b.1)) by {
                            assert(ants@[i as int] == a && ants@[j as int] == b);
                        }
                        assert forall|x: int, y: int| 0 <= x < w && 0 <= y < h implies #[trigger] marks@[flat(w as int, x, y)]
                            == hit_before(ants@, resonant, i as int, j + 1, x, y) by {
                            lemma_hit_next(ants@, resonant, i as int, j as int, x, y);
                            if pair_hits(a, b, resonant, x, y) {
                                let k2 = choose|k2: int| k2 >= 0 && #[trigger] ray_point(a, b, k2) == (x, y);
                                if k2 > w + h {
                                    lemma_ray_leaves(a, b, w as int, h as int, k2);
                                }
                                assert(exists|k3: int| 0 <= k3 < k && #[trigger] ray_point(a, b, k3) == (x, y));
                            }
                        }
                    }
                }
            } else {
                proof {
                    assert forall|x: int, y: int| 0 <= x < w && 0 <= y < h implies #[trigger] marks@[flat(w as int, x, y)]
                        == hit_before(ants@, resonant, i as int, j + 1, x, y) by {
                        lemma_hit_next(ants@, resonant, i as int, j as int, x, y);
                    }
                }
            }
            j = j + 1;
        }
        proof {
            assert forall|x: int, y: int| 0 <= x < w && 0 <= y < h implies #[trigger] marks@[flat(w as int, x, y)]
                == hit_before(ants@, resonant, i + 1, 0, x, y) by {
                lemma_hit_row_end(ants@, resonant, i as int, x, y);
            }
        }
        i = i + 1;
    }
    marks
}


proof fn lemma_row_antinodes_bound(ants: Seq<Antenna>, resonant: bool, y: int, n: int)
    requires
        0 <= n,
    ensures
        0 <= row_antinodes(ants, resonant, y, n) <= n,
    decreases n,
{
    if n > 0 {
        lemma_row_antinodes_bound(ants, resonant, y, n - 1);
    }
}

proof fn lemma_antinode_count_bound(ants: Seq<Antenna>, resonant: bool, w: int, n: int)
    requires
        0 <= n,
        0 <= w,
    ensures
        0 <= antinode_count(ants, resonant, w, n) <= n * w,
    decreases n,
{
    if n > 0 {
        lemma_antinode_count_bound(ants, resonant, w, n - 1);
        lemma_row_antinodes_bound(ants, resonant, n - 1, w);
        assert((n - 1) * w + w == n * w) by (nonlinear_arith);
    }
}

/// The number of cells of the `w` by `h` map that are antinodes of two
/// different antennas of one frequency (with `resonant`: that lie on a ray
/// from one such antenna away from the other, the antenna included).
pub fn count_antinodes(ants: &Vec<Antenna>, w: usize, h: usize, resonant: bool) -> (r: u64)
    requires
        on_map(ants@, w as int, h as int),
        distinct_cells(ants@),
        w <= MAX_SIDE,
        h <= MAX_SIDE,
        w * h <= u32::MAX,
    ensures
        r == antinode_count(ants@, resonant, w as int, h as int),
{
    let marks = mark_antinodes(ants, w, h, resonant);
    let mut count: u64 = 0;
    let mut y: usize = 0;
    while y < h
        invariant
            marks@.len() == w * h,
            w * h <= u32::MAX,
            w <= MAX_SIDE,
            marks_ok(marks@, ants@, resonant, w as int, h as int, ants@.len() as int, 0),
            y <= h,
            count == antinode_count(ants@, resonant, w as int, y as int),
        decreases h - y,
    {
        let mut x: usize = 0;
        let ghost base = count;
        proof {
            lemma_antinode_count_bound(ants@, resonant, w as int, y as int);
            assert((y as int) * (w as int) <= (w as int) * (h as int)) by (nonlinear_arith)
                requires
                    y <= h,
                    w >= 0,
            ;
        }
        while x < w
            invariant
                marks@.len() == w * h,
                w * h <= u32::MAX,
                marks_ok(marks@, ants@, resonant, w as int, h as int, ants@.len() as int, 0),
                y < h,
                x <= w,
                base == antinode_count(ants@, resonant, w as int, y as int),
                base <= y * w,
                count == base + row_antinodes(ants@, resonant, y as int, x as int),
            decreases w - x,
        {
            proof {
                lemma_flat_bounds(w as int, h as int, x as int, y as int);
                lemma_row_antinodes_bound(ants@, resonant, y as int, x as int);
                assert(y * w + x + 1 <= w * h) by (nonlinear_arith)
                    requires
                        y < h,
                        x < w,
                ;
            }
            if marks[y * w + x] {
                count = count + 1;
            }
            x = x + 1;
        }
        proof {
            assert(y * w + w == (y + 1) * w) by (nonlinear_arith);
        }
        y = y + 1;
    }
    count
}

/// The antennas on the map: every cell that is not `.`, row by row.
pub fn find_antennas(rows: &Vec<Vec<u8>>) -> (r: Vec<Antenna>)
    requires
        rows.len() <= MAX_SIDE,
        forall|y: int| 0 <= y < rows.len() ==> (#[trigger] rows@[y])@.len() <= MAX_SIDE,
    ensures
        forall|i: int|
            0 <= i < r@.len() ==> 0 <= (#[trigger] r@[i]).1 < rows@.len() && 0 <= r@[i].0 < rows@[r@[i].1 as int]@.len()
                && rows@[r@[i].1 as int]@[r@[i].0 as int] == r@[i].2 && r@[i].2 != EMPTY,
        forall|x: int, y: int|
            0 <= y < rows@.len() && 0 <= x < rows@[y]@.len() && #[trigger] rows@[y]@[x] != EMPTY ==> exists|i: int|
                0 <= i < r@.len() && (#[trigger] r@[i]).0 == x && r@[i].1 == y,
        distinct_cells(r@),
{
    let mut r: Vec<Antenna> = Vec::new();
    let mut y: usize = 0;
    while y < rows.len()
        invariant
            rows.len() <= MAX_SIDE,
            forall|yy: int| 0 <= yy < rows.len() ==> (#[trigger] rows@[yy])@.len() <= MAX_SIDE,
            y <= rows.len(),
            forall|i: int|
                0 <= i < r@.len() ==> 0 <= (#[trigger] r@[i]).1 < y && 0 <= r@[i].0 < rows@[r@[i].1 as int]@.len()
                    && rows@[r@[i].1 as int]@[r@[i].0 as int] == r@[i].2 && r@[i].2 != EMPTY,
            forall|x: int, yy: int|
                0 <= yy < y && 0 <= x < rows@[yy]@.len() && #[trigger] rows@[yy]@[x] != EMPTY ==> exists|i: int|
                    0 <= i < r@.len() && (#[trigger] r@[i]).0 == x && r@[i].1 == yy,
            distinct_cells(r@),
        decreases rows.len() - y,
    {
        let row = &rows[y];
        let mut x: usize = 0;
        while x < row.len()
            invariant
                rows.len() <= MAX_SIDE,
                forall|yy: int| 0 <= yy < rows.len() ==> (#[trigger] rows@[yy])@.len() <= MAX_SIDE,
                y < rows.len(),
                row@ == rows@[y as int]@,
                x <= row.len(),
                forall|i: int|
                    0 <= i < r@.len() ==> 0 <= (#[trigger] r@[i]).1 <= y && 0 <= r@[i].0 < rows@[r@[i].1 as int]@.len()
                        && rows@[r@[i].1 as int]@[r@[i].0 as int] == r@[i].2 && r@[i].2 != EMPTY && (r@[i].1 == y
                        ==> r@[i].0 < x),
                forall|xx: int, yy: int|
                    ((0 <= yy < y && 0 <= xx < rows@[yy]@.len()) || (yy == y && 0 <= xx < x)) && #[trigger] rows@[yy]@[xx]
                        != EMPTY ==> exists|i: int| 0 <= i < r@.len() && (#[trigger] r@[i]).0 == xx && r@[i].1 == yy,
                distinct_cells(r@),
            decreases row.len() - x,
        {
            if row[x] != EMPTY {
                let ghost r0 = r@;
                r.push((x as i64, y as i64, row[x]));
                proof {
                    let n = r0.len() as int;
                    assert(r@[n] == (x as i64, y as i64, row@[x as int]));
                    assert forall|xx: int, yy: int|
                        ((0 <= yy < y && 0 <= xx < rows@[yy]@.len()) || (yy == y && 0 <= xx < x + 1)) && #[trigger] rows@[yy]@[xx]
                            != EMPTY implies exists|i: int| 0 <= i < r@.len() && (#[trigger] r@[i]).0 == xx && r@[i].1 == yy by {
                        if yy == y && xx == x {
                            assert(r@[n].0 == xx && r@[n].1 == yy);
                        } else {
                            let i = choose|i: int| 0 <= i < r0.len() && (#[trigger] r0[i]).0 == xx && r0[i].1 == yy;
                            assert(r@[i] == r0[i]);
                        }
                    }
                    assert forall|i: int, j: int|
                        0 <= i < r@.len() && 0 <= j < r@.len() && i != j implies (#[trigger] r@[i].0, r@[i].1) != (
                        #[trigger] r@[j].0,
                        r@[j].1,
                    ) by {
                        if i < n && j < n {
                            assert(r@[i] == r0[i] && r@[j] == r0[j]);
                        } else if i < n {
                            assert(r@[i] == r0[i]);
                        } else {
                            assert(r@[j] == r0[j]);
                        }
                    }
                }
            }
            x = x + 1;
        }
        y = y + 1;
    }
    r
}

} // verus!
