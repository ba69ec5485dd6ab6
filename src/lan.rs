use vstd::prelude::*;
use crate::trails::{flat, lemma_flat_bounds, lemma_flat_inj};

verus! {

/// `t`.
pub const CHIEF_MARK: u8 = 116;

/// Computers `a` and `b` are connected by one of the links.
pub open spec fn linked(links: Seq<(usize, usize)>, a: int, b: int) -> bool {
    exists|k: int| 0 <= k < links.len() && (#[trigger] links[k] == (a as usize, b as usize) || links[k] == (b as usize, a as usize))
}

/// The name of computer `i` starts with `t`.
pub open spec fn chief(names: Seq<Vec<u8>>, i: int) -> bool {
    names[i]@.len() > 0 && names[i]@[0] == CHIEF_MARK
}

/// `i`, `j` and `k` are pairwise connected and one of their names starts with `t`.
pub open spec fn chief_triangle(links: Seq<(usize, usize)>, names: Seq<Vec<u8>>, i: int, j: int, k: int) -> bool {
    &&& linked(links, i, j)
    &&& linked(links, j, k)
    &&& linked(links, i, k)
    &&& (chief(names, i) || chief(names, j) || chief(names, k))
}

/// Triangles `i < j < k` with `j < k < m`.
pub open spec fn count_k(links: Seq<(usize, usize)>, names: Seq<Vec<u8>>, i: int, j: int, m: int) -> int
    decreases m - j,
{
    if m <= j + 1 {
        0
    } else {
        count_k(links, names, i, j, m - 1) + if chief_triangle(links, names, i, j, m - 1) {
            1int
        } else {
            0int
        }
    }
}

/// Triangles `i < j < k < n` with `i < j < m`.
pub open spec fn count_j(links: Seq<(usize, usize)>, names: Seq<Vec<u8>>, i: int, m: int, n: int) -> int
    decreases m - i,
{
    if m <= i + 1 {
        0
    } else {
        count_j(links, names, i, m - 1, n) + count_k(links, names, i, m - 1, n)
    }
}

/// Triangles `i < j < k < n` with `i < m`.
pub open spec fn count_i(links: Seq<(usize, usize)>, names: Seq<Vec<u8>>, m: int, n: int) -> int
    decreases m,
{
    if m <= 0 {
        0
    } else {
        count_i(links, names, m - 1, n) + count_j(links, names, m - 1, n, n)
    }
}

/// The link matrix of `n` computers, row by row: entry `a * n + b` is set
/// exactly when `a` and `b` are linked.
pub fn link_matrix(n: usize, links: &Vec<(usize, usize)>) -> (r: Vec<bool>)
    requires
        n * n <= u32::MAX,
        forall|k: int| 0 <= k < links.len() ==> (#[trigger] links@[k]).0 < n && links@[k].1 < n,
    ensures
        r@.len() == n * n,
        forall|a: int, b: int| 0 <= a < n && 0 <= b < n ==> #[trigger] r@[flat(n as int, b, a)] == linked(links@, a, b),
{
    let mut m: Vec<bool> = Vec::new();
    let mut c: usize = 0;
    while c < n * n
        invariant
            c <= n * n,
            n * n <= u32::MAX,
            m@.len() == c,
            forall|x: int| 0 <= x < c ==> !#[trigger] m@[x],
        decreases n * n - c,
    {
        m.push(false);
        c = c + 1;
    }
    let mut k: usize = 0;
    proof {
        assert forall|a: int, b: int| 0 <= a < n && 0 <= b < n implies #[trigger] m@[flat(n as int, b, a)] == linked(
            links@.subrange(0, 0),
            a,
            b,
        ) by {
            lemma_flat_bounds(n as int, n as int, b, a);
        }
    }
    while k < links.len()
        invariant
            n * n <= u32::MAX,
            forall|kk: int| 0 <= kk < links.len() ==> (#[trigger] links@[kk]).0 < n && links@[kk].1 < n,
            k <= links.len(),
            m@.len() == n * n,
            forall|a: int, b: int|
                0 <= a < n && 0 <= b < n ==> #[trigger] m@[flat(n as int, b, a)] == linked(links@.subrange(0, k as int), a, b),
        decreases links.len() - k,
    {
        let (a, b) = links[k];
        let ghost m0 = m@;
        proof {
            lemma_flat_bounds(n as int, n as int, b as int, a as int);
            lemma_flat_bounds(n as int, n as int, a as int, b as int);
        }
        m.set(a * n + b, true);
        m.set(b * n + a, true);
        proof {
            let s0 = links@.subrange(0, k as int);
            let s1 = links@.subrange(0, k + 1);
            assert forall|x: int, y: int| 0 <= x < n && 0 <= y < n implies #[trigger] m@[flat(n as int, y, x)]
                == linked(s1, x, y) by {
                lemma_flat_bounds(n as int, n as int, y, x);
                if flat(n as int, y, x) == flat(n as int, b as int, a as int) {
                    lemma_flat_inj(n as int, y, x, b as int, a as int);
                }
                if flat(n as int, y, x) == flat(n as int, a as int, b as int) {
                    lemma_flat_inj(n as int, y, x, a as int, b as int);
                }
                if linked(s0, x, y) {
                    let kk = choose|kk: int| 0 <= kk < s0.len() && (#[trigger] s0[kk] == (x as usize, y as usize) || s0[kk] == (y as usize, x as usize));
                    assert(s1[kk] == s0[kk]);
                }
                if linked(s1, x, y) {
                    let kk = choose|kk: int| 0 <= kk < s1.len() && (#[trigger] s1[kk] == (x as usize, y as usize) || s1[kk] == (y as usize, x as usize));
                    if kk < k {
                        assert(s0[kk] == s1[kk]);
                    }
                }
                if (x == a && y == b) || (x == b && y == a) {
                    assert(s1[k as int] == (a, b));
                }
            }
        }
        k = k + 1;
    }
    assert(links@.subrange(0, links@.len() as int) =~= links@);
    m
}


proof fn lemma_count_k_bound(links: Seq<(usize, usize)>, names: Seq<Vec<u8>>, i: int, j: int, m: int)
    ensures
        0 <= count_k(links, names, i, j, m) <= if m > j { m - j } else { 0 },
    decreases m - j,
{
    if m > j + 1 {
        lemma_count_k_bound(links, names, i, j, m - 1);
    }
}

proof fn lemma_count_j_bound(links: Seq<(usize, usize)>, names: Seq<Vec<u8>>, i: int, m: int, n: int)
    requires
        0 <= i,
        n >= 0,
    ensures
        0 <= count_j(links, names, i, m, n) <= if m > i { (m - i) * (n + 1) } else { 0 },
    decreases m - i,
{
    if m > i + 1 {
        lemma_count_j_bound(links, names, i, m - 1, n);
        lemma_count_k_bound(links, names, i, m - 1, n);
        assert((m - 1 - i) * (n + 1) + (n + 1) == (m - i) * (n + 1)) by (nonlinear_arith);
    }
}

proof fn lemma_count_i_bound(links: Seq<(usize, usize)>, names: Seq<Vec<u8>>, m: int, n: int)
    requires
        0 <= m <= n,
    ensures
        0 <= count_i(links, names, m, n) <= m * ((n + 1) * (n + 1)),
    decreases m,
{
    if m > 0 {
        lemma_count_i_bound(links, names, m - 1, n);
        lemma_count_j_bound(links, names, m - 1, n, n);
        assert((n - (m - 1)) * (n + 1) <= (n + 1) * (n + 1)) by (nonlinear_arith)
            requires
                1 <= m <= n,
        ;
        assert((m - 1) * ((n + 1) * (n + 1)) + (n + 1) * (n + 1) == m * ((n + 1) * (n + 1))) by (nonlinear_arith);
    }
}

/// Whether the name of a computer starts with `t`.
fn is_chief(name: &Vec<u8>) -> (r: bool)
    ensures
        r == (name@.len() > 0 && name@[0] == CHIEF_MARK),
{
    name.len() > 0 && name[0] == CHIEF_MARK
}

/// The number of sets of three computers, all linked to each other, of which
/// at least one has a name starting with `t`; computer `i` is named `names[i]`.
pub fn count_chief_triangles(n: usize, links: &Vec<(usize, usize)>, names: &Vec<Vec<u8>>) -> (r: u64)
    requires
        n * n <= u32::MAX,
        names.len() == n,
        forall|k: int| 0 <= k < links.len() ==> (#[trigger] links@[k]).0 < n && links@[k].1 < n,
    ensures
        r == count_i(links@, names@, n as int, n as int),
{
    let m = link_matrix(n, links);
    proof {
        lemma_count_i_bound(links@, names@, n as int, n as int);
        assert(n <= 0xffff) by (nonlinear_arith)
            requires
                n * n <= u32::MAX,
        ;
        assert(n * ((n + 1) * (n + 1)) <= 0xffff * (0x1_0000 * 0x1_0000)) by (nonlinear_arith)
            requires
                n <= 0xffff,
        ;
    }
    let mut total: u64 = 0;
    let mut i: usize = 0;
    while i < n
        invariant
            n * n <= u32::MAX,
            names.len() == n,
            m@.len() == n * n,
            forall|a: int, b: int| 0 <= a < n && 0 <= b < n ==> #[trigger] m@[flat(n as int, b, a)] == linked(links@, a, b),
            count_i(links@, names@, n as int, n as int) <= u64::MAX,
            i <= n,
            total == count_i(links@, names@, i as int, n as int),
        decreases n - i,
    {
        let ghost base_i = total;
        proof {
            lemma_count_i_mono(links@, names@, i + 1, n as int, n as int);
        }
        let mut j: usize = i + 1;
        while j < n
            invariant
                n * n <= u32::MAX,
                names.len() == n,
                m@.len() == n * n,
                forall|a: int, b: int| 0 <= a < n && 0 <= b < n ==> #[trigger] m@[flat(n as int, b, a)] == linked(links@, a, b),
                i < n,
                i + 1 <= j <= n || (j == i + 1 && j > n),
                base_i == count_i(links@, names@, i as int, n as int),
                count_i(links@, names@, i + 1, n as int) <= u64::MAX,
                total == base_i + count_j(links@, names@, i as int, j as int, n as int),
            decreases n - j,
        {
            let ghost base_j = total;
            proof {
                lemma_count_j_mono(links@, names@, i as int, j + 1, n as int, n as int);
                lemma_flat_bounds(n as int, n as int, j as int, i as int);
                assert((i as int) * (n as int) <= (n as int) * (n as int)) by (nonlinear_arith)
                    requires
                        i < n,
                ;
            }
            let ij = m[i * n + j];
            let mut k: usize = j + 1;
            while k < n
                invariant
                    n * n <= u32::MAX,
                    names.len() == n,
                    m@.len() == n * n,
                    forall|a: int, b: int|
                        0 <= a < n && 0 <= b < n ==> #[trigger] m@[flat(n as int, b, a)] == linked(links@, a, b),
                    i < j < n,
                    j + 1 <= k <= n || (k == j + 1 && k > n),
                    ij == linked(links@, i as int, j as int),
                    base_i + count_j(links@, names@, i as int, j + 1, n as int) <= u64::MAX,
                    base_j == base_i + count_j(links@, names@, i as int, j as int, n as int),
                    total == base_j + count_k(links@, names@, i as int, j as int, k as int),
                decreases n - k,
            {
                proof {
                    lemma_count_k_mono(links@, names@, i as int, j as int, k + 1, n as int);
                    lemma_flat_bounds(n as int, n as int, k as int, j as int);
                    lemma_flat_bounds(n as int, n as int, k as int, i as int);
                    assert((j as int) * (n as int) <= (n as int) * (n as int)) by (nonlinear_arith)
                        requires
                            j < n,
                    ;
                    assert((i as int) * (n as int) <= (n as int) * (n as int)) by (nonlinear_arith)
                        requires
                            i < n,
                    ;
                }
                if ij && m[j * n + k] && m[i * n + k] && (is_chief(&names[i]) || is_chief(&names[j]) || is_chief(
                    &names[k],
                )) {
                    total = total + 1;
                }
                k = k + 1;
            }
            j = j + 1;
        }
        i = i + 1;
    }
    total
}

proof fn lemma_count_k_mono(links: Seq<(usize, usize)>, names: Seq<Vec<u8>>, i: int, j: int, a: int, b: int)
    requires
        j < a <= b,
    ensures
        count_k(links, names, i, j, a) <= count_k(links, names, i, j, b),
    decreases b - a,
{
    if a < b {
        lemma_count_k_mono(links, names, i, j, a, b - 1);
    }
}

proof fn lemma_count_j_mono(links: Seq<(usize, usize)>, names: Seq<Vec<u8>>, i: int, a: int, b: int, n: int)
    requires
        i < a <= b,
    ensures
        count_j(links, names, i, a, n) <= count_j(links, names, i, b, n),
    decreases b - a,
{
    if a < b {
        lemma_count_j_mono(links, names, i, a, b - 1, n);
        lemma_count_k_bound(links, names, i, b - 1, n);
    }
}

proof fn lemma_count_i_mono(links: Seq<(usize, usize)>, names: Seq<Vec<u8>>, a: int, b: int, n: int)
    requires
        0 <= a <= b,
        n >= 0,
    ensures
        count_i(links, names, a, n) <= count_i(links, names, b, n),
    decreases b - a,
{
    if a < b {
        lemma_count_i_mono(links, names, a, b - 1, n);
        lemma_count_j_bound(links, names, b - 1, n, n);
    }
}

} // verus!
