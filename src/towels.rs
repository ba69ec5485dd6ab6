use vstd::prelude::*;

verus! {

/// One past the largest `u64`: counts are kept capped here.
pub const CAP: u128 = 0x1_0000_0000_0000_0000;

/// `d[k..k + i]` is one of the towels.
pub open spec fn is_towel(towels: Seq<Vec<u8>>, d: Seq<u8>, k: int, i: int) -> bool {
    exists|t: int| 0 <= t < towels.len() && #[trigger] towels[t]@ == d.subrange(k, k + i)
}

/// The number of ways to make `d[k..]` from towels, summed over the first
/// towel's length up to `m`.
pub open spec fn ways_upto(towels: Seq<Vec<u8>>, d: Seq<u8>, k: int, m: int) -> nat
    decreases d.len() - k, m,
{
    if m <= 0 || k < 0 || k >= d.len() {
        0
    } else if m > d.len() - k {
        ways_upto(towels, d, k, d.len() - k)
    } else {
        ways_upto(towels, d, k, m - 1) + if is_towel(towels, d, k, m) {
            ways(towels, d, k + m)
        } else {
            0
        }
    }
}

/// The number of ways to make `d[k..]` as a row of towels (the empty rest in
/// one way).
pub open spec fn ways(towels: Seq<Vec<u8>>, d: Seq<u8>, k: int) -> nat
    decreases d.len() - k, d.len() + 1,
{
    if k >= d.len() || k < 0 {
        1
    } else {
        ways_upto(towels, d, k, d.len() - k)
    }
}

/// `x`, capped at `CAP`.
pub open spec fn capped(x: nat) -> nat {
    if x < CAP {
        x
    } else {
        CAP as nat
    }
}

/// Whether the towel `t` is `d[k..k + i]`.
fn towel_matches(t: &Vec<u8>, d: &Vec<u8>, k: usize, i: usize) -> (r: bool)
    requires
        k + i <= d.len(),
    ensures
        r == (t@ == d@.subrange(k as int, k + i)),
{
    if t.len() != i {
        return false;
    }
    let mut j: usize = 0;
    while j < i
        invariant
            t.len() == i,
            k + i <= d.len(),
            j <= i,
            forall|x: int| 0 <= x < j ==> t@[x] == d@[k + x],
        decreases i - j,
    {
        if t[j] != d[k + j] {
            assert(t@[j as int] != d@.subrange(k as int, k + i)[j as int]);
            return false;
        }
        j = j + 1;
    }
    assert(t@ =~= d@.subrange(k as int, k + i));
    true
}

/// Whether `d[k..k + i]` is one of the towels.
fn is_towel_exec(towels: &Vec<Vec<u8>>, d: &Vec<u8>, k: usize, i: usize) -> (r: bool)
    requires
        k + i <= d.len(),
    ensures
        r == is_towel(towels@, d@, k as int, i as int),
{
    let mut t: usize = 0;
    while t < towels.len()
        invariant
            k + i <= d.len(),
            t <= towels.len(),
            forall|x: int| 0 <= x < t ==> towels@[x]@ != d@.subrange(k as int, k + i),
        decreases towels.len() - t,
    {
        if towel_matches(&towels[t], d, k, i) {
            return true;
        }
        t = t + 1;
    }
    false
}

/// The number of ways to make `design` as a row of towels; `None` where that
/// number does not fit in a `u64`.
pub fn count_possibilities_rec(towels: &Vec<Vec<u8>>, design: &Vec<u8>) -> (r: Option<u64>)
    requires
        design.len() < 0x8000_0000,
    ensures
        r matches Some(v) ==> v == ways(towels@, design@, 0),
        r is None ==> ways(towels@, design@, 0) > u64::MAX,
{
    let n = design.len();
    let mut cw: Vec<u128> = Vec::new();
    let mut z: usize = 0;
    while z <= n
        invariant
            z <= n + 1,
            n == design.len(),
            n < 0x8000_0000,
            cw@.len() == z,
        decreases n + 1 - z,
    {
        cw.push(0);
        z = z + 1;
    }
    cw.set(n, 1);
    let mut k: usize = n;
    while k > 0
        invariant
            n == design.len(),
            n < 0x8000_0000,
            k <= n,
            cw@.len() == n + 1,
            forall|j: int| k <= j <= n ==> #[trigger] cw@[j] == capped(ways(towels@, design@, j)),
        decreases k,
    {
        k = k - 1;
        let mut acc: u128 = 0;
        let mut i: usize = 1;
        while i <= n - k
            invariant
                n == design.len(),
                n < 0x8000_0000,
                k < n,
                1 <= i <= n - k + 1,
                cw@.len() == n + 1,
                forall|j: int| k < j <= n ==> #[trigger] cw@[j] == capped(ways(towels@, design@, j)),
                acc == capped(ways_upto(towels@, design@, k as int, i - 1)),
            decreases n - k + 1 - i,
        {
            if is_towel_exec(towels, design, k, i) {
                let c = cw[k + i];
                acc = if acc + c >= CAP {
                    CAP
                } else {
                    acc + c
                };
            }
            i = i + 1;
        }
        cw.set(k, acc);
    }
    let total = cw[0];
    if total >= CAP {
        None
    } else {
        Some(total as u64)
    }
}


/// How many of the first `n` designs can be made at all.
pub open spec fn possible_count(towels: Seq<Vec<u8>>, designs: Seq<Vec<u8>>, n: int) -> int
    decreases n,
{
    if n <= 0 {
        0
    } else {
        possible_count(towels, designs, n - 1) + if ways(towels, designs[n - 1]@, 0) > 0 {
            1int
        } else {
            0int
        }
    }
}

/// The number of ways to make each of the first `n` designs, summed.
pub open spec fn ways_sum(towels: Seq<Vec<u8>>, designs: Seq<Vec<u8>>, n: int) -> int
    decreases n,
{
    if n <= 0 {
        0
    } else {
        ways_sum(towels, designs, n - 1) + ways(towels, designs[n - 1]@, 0)
    }
}

/// Every design is shorter than 2^31.
pub open spec fn designs_ok(designs: Seq<Vec<u8>>) -> bool {
    forall|i: int| 0 <= i < designs.len() ==> (#[trigger] designs[i])@.len() < 0x8000_0000
}

/// How many designs can be made from the towels, and the number of ways to
/// make them all summed (`None` where that sum does not fit in a `u64`).
pub fn count_designs(towels: &Vec<Vec<u8>>, designs: &Vec<Vec<u8>>) -> (r: (usize, Option<u64>))
    requires
        designs_ok(designs@),
    ensures
        r.0 == possible_count(towels@, designs@, designs@.len() as int),
        r.1 matches Some(v) ==> v == ways_sum(towels@, designs@, designs@.len() as int),
        r.1 is None ==> ways_sum(towels@, designs@, designs@.len() as int) > u64::MAX,
{
    let mut possible: usize = 0;
    let mut total: Option<u64> = Some(0);
    let mut i: usize = 0;
    while i < designs.len()
        invariant
            designs_ok(designs@),
            i <= designs.len(),
            possible == possible_count(towels@, designs@, i as int),
            possible <= i,
            total matches Some(v) ==> v == ways_sum(towels@, designs@, i as int),
            total is None ==> ways_sum(towels@, designs@, i as int) > u64::MAX,
        decreases designs.len() - i,
    {
        let w = count_possibilities_rec(towels, &designs[i]);
        match w {
            Some(v) => {
                if v > 0 {
                    possible = possible + 1;
                }
                total = match total {
                    Some(t) => t.checked_add(v),
                    None => None,
                };
            },
            None => {
                possible = possible + 1;
                total = None;
            },
        }
        i = i + 1;
    }
    (possible, total)
}

} // verus!
