use vstd::prelude::*;

verus! {

/// Ascending order on list entries.
pub open spec fn ascending() -> spec_fn(i32, i32) -> bool {
    |a: i32, b: i32| a <= b
}

/// Relies on `slice::sort`: it sorts the entries in ascending order, and the
/// ascending arrangement of a list of integers is unique.
#[verifier::external_body]
fn sort_list(v: &mut Vec<i32>)
    ensures
        final(v)@ == old(v)@.sort_by(ascending()),
{
    v.sort();
}

/// `|a - b|`.
pub open spec fn gap(a: i32, b: i32) -> int {
    if a >= b {
        a - b
    } else {
        b - a
    }
}

/// The sum of the gaps between the entries at the first `n` positions of `l` and `r`.
pub open spec fn distance_sum(l: Seq<i32>, r: Seq<i32>, n: int) -> int
    decreases n,
{
    if n <= 0 {
        0
    } else {
        distance_sum(l, r, n - 1) + gap(l[n - 1], r[n - 1])
    }
}

/// How many of the first `n` entries of `s` are `v`.
pub open spec fn occurrences(s: Seq<i32>, v: i32, n: int) -> int
    decreases n,
{
    if n <= 0 {
        0
    } else {
        occurrences(s, v, n - 1) + if s[n - 1] == v {
            1int
        } else {
            0int
        }
    }
}

/// The sum over the first `n` entries `v` of `l` of `v` times the number of
/// times `v` occurs in `r`.
pub open spec fn similarity_sum(l: Seq<i32>, r: Seq<i32>, n: int) -> int
    decreases n,
{
    if n <= 0 {
        0
    } else {
        similarity_sum(l, r, n - 1) + l[n - 1] * occurrences(r, l[n - 1], r.len() as int)
    }
}

proof fn lemma_distance_bound(l: Seq<i32>, r: Seq<i32>, n: int)
    requires
        0 <= n,
    ensures
        0 <= distance_sum(l, r, n) <= n * 0x1_0000_0000,
    decreases n,
{
    if n > 0 {
        lemma_distance_bound(l, r, n - 1);
    }
}

/// The sum of the gaps between the entries of `left` and `right` at each position.
pub fn total_distance(left: &Vec<i32>, right: &Vec<i32>) -> (r: u64)
    requires
        left.len() == right.len(),
        left.len() <= u32::MAX,
    ensures
        r == distance_sum(left@, right@, left@.len() as int),
{
    let mut total: u64 = 0;
    let mut i: usize = 0;
    while i < left.len()
        invariant
            i <= left.len(),
            left.len() == right.len(),
            left.len() <= u32::MAX,
            total == distance_sum(left@, right@, i as int),
        decreases left.len() - i,
    {
        proof {
            lemma_distance_bound(left@, right@, i + 1);
            assert((i + 1) * 0x1_0000_0000 <= 0x1_0000_0000 * 0x1_0000_0000) by (nonlinear_arith)
                requires
                    i + 1 <= 0x1_0000_0000,
            ;
        }
        let a = left[i];
        let b = right[i];
        let d: u64 = if a >= b {
            (a as i64 - b as i64) as u64
        } else {
            (b as i64 - a as i64) as u64
        };
        total = total + d;
        i = i + 1;
    }
    total
}

/// The total distance between the two lists: pair the smallest entries,
/// then the next smallest, and so on, and sum the gaps of the pairs.
pub fn list_distance(left: &Vec<i32>, right: &Vec<i32>) -> (r: u64)
    requires
        left.len() == right.len(),
        left.len() <= u32::MAX,
    ensures
        r == distance_sum(
            left@.sort_by(ascending()),
            right@.sort_by(ascending()),
            left@.len() as int,
        ),
{
    let mut l = left.clone();
    let mut r = right.clone();
    assert(l@ =~= left@);
    assert(r@ =~= right@);
    sort_list(&mut l);
    sort_list(&mut r);
    proof {
        left@.lemma_sort_by_ensures(ascending());
        right@.lemma_sort_by_ensures(ascending());
        l@.to_multiset_ensures();
        left@.to_multiset_ensures();
        r@.to_multiset_ensures();
        right@.to_multiset_ensures();
    }
    total_distance(&l, &r)
}

/// How many entries of `s` are `v`.
fn count_of(s: &Vec<i32>, v: i32) -> (r: u64)
    requires
        s.len() <= u32::MAX,
    ensures
        r == occurrences(s@, v, s@.len() as int),
        r <= s.len(),
{
    let mut c: u64 = 0;
    let mut i: usize = 0;
    while i < s.len()
        invariant
            i <= s.len(),
            c == occurrences(s@, v, i as int),
            c <= i,
        decreases s.len() - i,
    {
        if s[i] == v {
            c = c + 1;
        }
        i = i + 1;
    }
    c
}

proof fn lemma_similarity_bound(l: Seq<i32>, r: Seq<i32>, n: int)
    requires
        0 <= n,
        r.len() <= u32::MAX,
        forall|v: i32| 0 <= #[trigger] occurrences(r, v, r.len() as int) <= r.len(),
    ensures
        -n * 0x8000_0000 * 0x1_0000_0000 <= similarity_sum(l, r, n) <= n * 0x8000_0000 * 0x1_0000_0000,
    decreases n,
{
    if n > 0 {
        lemma_similarity_bound(l, r, n - 1);
        let v = l[n - 1];
        let c = occurrences(r, v, r.len() as int);
        assert(-0x8000_0000 * 0x1_0000_0000 <= v * c <= 0x8000_0000 * 0x1_0000_0000) by (nonlinear_arith)
            requires
                -0x8000_0000 <= v < 0x8000_0000,
                0 <= c <= 0x1_0000_0000,
        ;
    }
}

proof fn lemma_occurrences_bound(s: Seq<i32>, v: i32, n: int)
    requires
        0 <= n,
    ensures
        0 <= occurrences(s, v, n) <= n,
    decreases n,
{
    if n > 0 {
        lemma_occurrences_bound(s, v, n - 1);
    }
}

/// The similarity score: each entry of `left` times the number of times it
/// occurs in `right`, summed.
pub fn similarity(left: &Vec<i32>, right: &Vec<i32>) -> (r: i128)
    requires
        left.len() <= u32::MAX,
        right.len() <= u32::MAX,
    ensures
        r == similarity_sum(left@, right@, left@.len() as int),
{
    let mut total: i128 = 0;
    let mut i: usize = 0;
    proof {
        assert forall|v: i32| 0 <= #[trigger] occurrences(right@, v, right@.len() as int) <= right@.len() by {
            lemma_occurrences_bound(right@, v, right@.len() as int);
        }
    }
    while i < left.len()
        invariant
            i <= left.len(),
            left.len() <= u32::MAX,
            right.len() <= u32::MAX,
            forall|v: i32| 0 <= #[trigger] occurrences(right@, v, right@.len() as int) <= right@.len(),
            total == similarity_sum(left@, right@, i as int),
        decreases left.len() - i,
    {
        proof {
            lemma_similarity_bound(left@, right@, i + 1);
            assert((i + 1) * 0x8000_0000 * 0x1_0000_0000 <= 0x1_0000_0000 * 0x8000_0000 * 0x1_0000_0000) by (nonlinear_arith)
                requires
                    i + 1 <= 0x1_0000_0000,
            ;
        }
        let v = left[i];
        let c = count_of(right, v);
        assert(-0x8000_0000 * 0x1_0000_0000 <= v * c <= 0x8000_0000 * 0x1_0000_0000) by (nonlinear_arith)
            requires
                -0x8000_0000 <= v < 0x8000_0000,
                0 <= c <= 0x1_0000_0000,
        ;
        assert(similarity_sum(left@, right@, i + 1) == total + v * c);
        total = total + (v as i128) * (c as i128);
        i = i + 1;
    }
    total
}

} // verus!
