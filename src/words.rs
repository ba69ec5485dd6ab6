use vstd::prelude::*;

verus! {

/// `X`.
pub const X: u8 = 88;

/// `M`.
pub const M: u8 = 77;

/// `A`.
pub const A: u8 = 65;

/// `S`.
pub const S: u8 = 83;

/// The letter at row `r`, column `c`; a blank (0) outside the grid.
pub open spec fn letter(g: Seq<Vec<u8>>, r: int, c: int) -> u8 {
    if 0 <= r < g.len() && 0 <= c < g[r]@.len() {
        g[r]@[c]
    } else {
        0
    }
}

/// `XMAS` is spelled from `(r, c)` stepping by `(dr, dc)`.
pub open spec fn xmas_at(g: Seq<Vec<u8>>, r: int, c: int, dr: int, dc: int) -> bool {
    &&& letter(g, r, c) == X
    &&& letter(g, r + dr, c + dc) == M
    &&& letter(g, r + 2 * dr, c + 2 * dc) == A
    &&& letter(g, r + 3 * dr, c + 3 * dc) == S
}

/// How many of the first `n` cells of row `r` start `XMAS` in direction `(dr, dc)`.
pub open spec fn row_xmas(g: Seq<Vec<u8>>, r: int, n: int, dr: int, dc: int) -> int
    decreases n,
{
    if n <= 0 {
        0
    } else {
        row_xmas(g, r, n - 1, dr, dc) + if xmas_at(g, r, n - 1, dr, dc) {
            1int
        } else {
            0int
        }
    }
}

/// How many cells of the first `n` rows start `XMAS` in direction `(dr, dc)`.
pub open spec fn grid_xmas(g: Seq<Vec<u8>>, n: int, dr: int, dc: int) -> int
    decreases n,
{
    if n <= 0 {
        0
    } else {
        grid_xmas(g, n - 1, dr, dc) + row_xmas(g, n - 1, g[n - 1]@.len() as int, dr, dc)
    }
}

/// Two `MAS` cross in an X whose top-left corner is `(r, c)`.
pub open spec fn x_mas_at(g: Seq<Vec<u8>>, r: int, c: int) -> bool {
    let centre = letter(g, r + 1, c + 1) == A;
    let down = (letter(g, r, c) == M && letter(g, r + 2, c + 2) == S) || (letter(g, r, c) == S && letter(g, r + 2, c + 2)
        == M);
    let up = (letter(g, r, c + 2) == M && letter(g, r + 2, c) == S) || (letter(g, r, c + 2) == S && letter(g, r + 2, c)
        == M);
    centre && down && up
}

/// How many of the first `n` cells of row `r` are the top-left corner of an X of `MAS`.
pub open spec fn row_x_mas(g: Seq<Vec<u8>>, r: int, n: int) -> int
    decreases n,
{
    if n <= 0 {
        0
    } else {
        row_x_mas(g, r, n - 1) + if x_mas_at(g, r, n - 1) {
            1int
        } else {
            0int
        }
    }
}

/// How many cells of the first `n` rows are the top-left corner of an X of `MAS`.
pub open spec fn grid_x_mas(g: Seq<Vec<u8>>, n: int) -> int
    decreases n,
{
    if n <= 0 {
        0
    } else {
        grid_x_mas(g, n - 1) + row_x_mas(g, n - 1, g[n - 1]@.len() as int)
    }
}

/// The letter at row `r`, column `c`; a blank (0) outside the grid.
fn letter_at(g: &Vec<Vec<u8>>, r: i64, c: i64) -> (l: u8)
    ensures
        l == letter(g@, r as int, c as int),
{
    if r < 0 || c < 0 || r as u64 >= g.len() as u64 {
        return 0;
    }
    let row = &g[r as usize];
    if c as u64 >= row.len() as u64 {
        return 0;
    }
    row[c as usize]
}

/// The grid has fewer than 2^31 rows and columns, and fewer than 2^32 cells.
pub open spec fn grid_ok(g: Seq<Vec<u8>>) -> bool {
    &&& g.len() < 0x8000_0000
    &&& forall|r: int| 0 <= r < g.len() ==> (#[trigger] g[r])@.len() < 0x8000_0000
    &&& total_cells(g, g.len() as int) <= u32::MAX
}

/// The number of cells in the first `n` rows.
pub open spec fn total_cells(g: Seq<Vec<u8>>, n: int) -> int
    decreases n,
{
    if n <= 0 {
        0
    } else {
        total_cells(g, n - 1) + g[n - 1]@.len()
    }
}

proof fn lemma_total_cells_mono(g: Seq<Vec<u8>>, m: int, n: int)
    requires
        0 <= m <= n,
    ensures
        total_cells(g, m) <= total_cells(g, n),
    decreases n - m,
{
    if m < n {
        lemma_total_cells_mono(g, m, n - 1);
    }
}

proof fn lemma_row_xmas_bound(g: Seq<Vec<u8>>, r: int, n: int, dr: int, dc: int)
    requires
        0 <= n,
    ensures
        0 <= row_xmas(g, r, n, dr, dc) <= n,
    decreases n,
{
    if n > 0 {
        lemma_row_xmas_bound(g, r, n - 1, dr, dc);
    }
}

proof fn lemma_grid_xmas_bound(g: Seq<Vec<u8>>, n: int, dr: int, dc: int)
    requires
        0 <= n <= g.len(),
    ensures
        0 <= grid_xmas(g, n, dr, dc) <= total_cells(g, n),
    decreases n,
{
    if n > 0 {
        lemma_grid_xmas_bound(g, n - 1, dr, dc);
        lemma_row_xmas_bound(g, n - 1, g[n - 1]@.len() as int, dr, dc);
    }
}

/// How many cells start `XMAS` in the direction `(horiz, vert)`: `horiz`
/// steps along the rows, `vert` along the columns.
pub fn count_part1(contents: &Vec<Vec<u8>>, horiz: i32, vert: i32) -> (r: u64)
    requires
        grid_ok(contents@),
        -1 <= horiz <= 1,
        -1 <= vert <= 1,
    ensures
        r == grid_xmas(contents@, contents@.len() as int, horiz as int, vert as int),
        r <= u32::MAX,
{
    let mut total: u64 = 0;
    let mut i: usize = 0;
    let h = horiz as i64;
    let v = vert as i64;
    while i < contents.len()
        invariant
            grid_ok(contents@),
            -1 <= h <= 1,
            -1 <= v <= 1,
            h == horiz,
            v == vert,
            i <= contents.len(),
            total == grid_xmas(contents@, i as int, horiz as int, vert as int),
        decreases contents.len() - i,
    {
        let ghost base = total;
        proof {
            lemma_grid_xmas_bound(contents@, i + 1, horiz as int, vert as int);
            lemma_total_cells_mono(contents@, i + 1, contents@.len() as int);
        }
        let mut j: usize = 0;
        while j < contents[i].len()
            invariant
                grid_ok(contents@),
                -1 <= h <= 1,
                -1 <= v <= 1,
                h == horiz,
                v == vert,
                i < contents.len(),
                j <= contents@[i as int]@.len(),
                base == grid_xmas(contents@, i as int, horiz as int, vert as int),
                total == base + row_xmas(contents@, i as int, j as int, horiz as int, vert as int),
                grid_xmas(contents@, i + 1, horiz as int, vert as int) <= u32::MAX,
            decreases contents@[i as int]@.len() - j,
        {
            proof {
                lemma_row_xmas_prefix(contents@, i as int, j + 1, contents@[i as int]@.len() as int, horiz as int, vert as int);
            }
            let (r, c) = (i as i64, j as i64);
            if letter_at(contents, r, c) == X && letter_at(contents, r + h, c + v) == M && letter_at(
                contents,
                r + 2 * h,
                c + 2 * v,
            ) == A && letter_at(contents, r + 3 * h, c + 3 * v) == S {
                total = total + 1;
            }
            j = j + 1;
        }
        i = i + 1;
    }
    proof {
        lemma_grid_xmas_bound(contents@, contents@.len() as int, horiz as int, vert as int);
    }
    total
}

proof fn lemma_row_xmas_prefix(g: Seq<Vec<u8>>, r: int, m: int, n: int, dr: int, dc: int)
    requires
        0 <= m <= n,
    ensures
        row_xmas(g, r, m, dr, dc) <= row_xmas(g, r, n, dr, dc),
    decreases n - m,
{
    if m < n {
        lemma_row_xmas_prefix(g, r, m, n - 1, dr, dc);
    }
}

/// How many times `XMAS` appears in the grid, in any of the eight directions.
pub fn count_xmas(contents: &Vec<Vec<u8>>) -> (r: u64)
    requires
        grid_ok(contents@),
    ensures
        r == grid_xmas(contents@, contents@.len() as int, 1, 0) + grid_xmas(contents@, contents@.len() as int, -1, 0)
            + grid_xmas(contents@, contents@.len() as int, 0, 1) + grid_xmas(contents@, contents@.len() as int, 0, -1)
            + grid_xmas(contents@, contents@.len() as int, 1, 1) + grid_xmas(contents@, contents@.len() as int, 1, -1)
            + grid_xmas(contents@, contents@.len() as int, -1, 1) + grid_xmas(contents@, contents@.len() as int, -1, -1),
{
    let mut total = count_part1(contents, 1, 0);
    total = total + count_part1(contents, -1, 0);
    total = total + count_part1(contents, 0, 1);
    total = total + count_part1(contents, 0, -1);
    total = total + count_part1(contents, 1, 1);
    total = total + count_part1(contents, 1, -1);
    total = total + count_part1(contents, -1, 1);
    total = total + count_part1(contents, -1, -1);
    total
}


proof fn lemma_row_x_mas_bound(g: Seq<Vec<u8>>, r: int, n: int)
    requires
        0 <= n,
    ensures
        0 <= row_x_mas(g, r, n) <= n,
    decreases n,
{
    if n > 0 {
        lemma_row_x_mas_bound(g, r, n - 1);
    }
}

proof fn lemma_row_x_mas_prefix(g: Seq<Vec<u8>>, r: int, m: int, n: int)
    requires
        0 <= m <= n,
    ensures
        row_x_mas(g, r, m) <= row_x_mas(g, r, n),
    decreases n - m,
{
    if m < n {
        lemma_row_x_mas_prefix(g, r, m, n - 1);
    }
}

proof fn lemma_grid_x_mas_bound(g: Seq<Vec<u8>>, n: int)
    requires
        0 <= n <= g.len(),
    ensures
        0 <= grid_x_mas(g, n) <= total_cells(g, n),
    decreases n,
{
    if n > 0 {
        lemma_grid_x_mas_bound(g, n - 1);
        lemma_row_x_mas_bound(g, n - 1, g[n - 1]@.len() as int);
    }
}

/// How many times two `MAS` cross in the shape of an X.
pub fn count_x_mas(contents: &Vec<Vec<u8>>) -> (r: u64)
    requires
        grid_ok(contents@),
    ensures
        r == grid_x_mas(contents@, contents@.len() as int),
{
    let mut total: u64 = 0;
    let mut i: usize = 0;
    while i < contents.len()
        invariant
            grid_ok(contents@),
            i <= contents.len(),
            total == grid_x_mas(contents@, i as int),
        decreases contents.len() - i,
    {
        let ghost base = total;
        proof {
            lemma_grid_x_mas_bound(contents@, i + 1);
            lemma_total_cells_mono(contents@, i + 1, contents@.len() as int);
        }
        let mut j: usize = 0;
        while j < contents[i].len()
            invariant
                grid_ok(contents@),
                i < contents.len(),
                j <= contents@[i as int]@.len(),
                base == grid_x_mas(contents@, i as int),
                total == base + row_x_mas(contents@, i as int, j as int),
                grid_x_mas(contents@, i + 1) <= u32::MAX,
            decreases contents@[i as int]@.len() - j,
        {
            proof {
                lemma_row_x_mas_prefix(contents@, i as int, j + 1, contents@[i as int]@.len() as int);
            }
            let (r, c) = (i as i64, j as i64);
            let centre = letter_at(contents, r + 1, c + 1) == A;
            let (a, b) = (letter_at(contents, r, c), letter_at(contents, r + 2, c + 2));
            let down = (a == M && b == S) || (a == S && b == M);
            let (p, q) = (letter_at(contents, r, c + 2), letter_at(contents, r + 2, c));
            let up = (p == M && q == S) || (p == S && q == M);
            if centre && down && up {
                total = total + 1;
            }
            j = j + 1;
        }
        i = i + 1;
    }
    total
}

} // verus!
