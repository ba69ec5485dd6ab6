use vstd::prelude::*;

verus! {

pub const MUL1: u64 = 64;

pub const MUL2: u64 = 2048;

pub const DIV: u64 = 32;

/// Secrets are pruned to below this bound.
pub const MOD: u64 = 16777216;

/// The secret that follows `s`: mix in `s * 64`, prune, mix in `s / 32`,
/// prune, mix in `s * 2048`, prune; mixing is a bitwise exclusive or and
/// pruning keeps the remainder modulo `MOD`.
pub open spec fn next_secret(s: u64) -> u64 {
    let a = ((s ^ ((s * MUL1) as u64)) % MOD) as u64;
    let b = ((a ^ (a / DIV)) % MOD) as u64;
    ((b ^ ((b * MUL2) as u64)) % MOD) as u64
}

/// The secret `n` steps after `s`.
pub open spec fn secret_after(s: u64, n: nat) -> u64
    decreases n,
{
    if n == 0 {
        s
    } else {
        next_secret(secret_after(s, (n - 1) as nat))
    }
}

/// The sum of the secrets `n` steps after each of the first `k` seeds.
pub open spec fn secrets_sum(seeds: Seq<u64>, n: nat, k: int) -> int
    decreases k,
{
    if k <= 0 {
        0
    } else {
        secrets_sum(seeds, n, k - 1) + secret_after(seeds[k - 1], n)
    }
}

pub fn get_next_secret(s: u64) -> (r: u64)
    requires
        s <= u64::MAX / MUL1,
    ensures
        r == next_secret(s),
        r < MOD,
{
    let a = (s ^ (s * MUL1)) % MOD;
    let b = (a ^ (a / DIV)) % MOD;
    assert(b < MOD);
    (b ^ (b * MUL2)) % MOD
}

/// The secret `n` steps after `s`.
pub fn nth_secret(s: u64, n: u64) -> (r: u64)
    requires
        n >= 1 ==> s <= u64::MAX / MUL1,
    ensures
        r == secret_after(s, n as nat),
        n >= 1 ==> r < MOD,
{
    let mut cur = s;
    let mut i: u64 = 0;
    while i < n
        invariant
            i <= n,
            cur == secret_after(s, i as nat),
            i >= 1 ==> cur < MOD,
            n >= 1 ==> s <= u64::MAX / MUL1,
        decreases n - i,
    {
        cur = get_next_secret(cur);
        i = i + 1;
    }
    cur
}

proof fn lemma_secrets_sum_bound(seeds: Seq<u64>, n: nat, k: int)
    requires
        n >= 1,
        0 <= k <= seeds.len(),
        forall|i: int| 0 <= i < seeds.len() ==> secret_after(#[trigger] seeds[i], n) < MOD,
    ensures
        0 <= secrets_sum(seeds, n, k) <= k * MOD,
    decreases k,
{
    if k > 0 {
        lemma_secrets_sum_bound(seeds, n, k - 1);
    }
}

proof fn lemma_secret_after_bound(s: u64, n: nat)
    requires
        n >= 1,
        s <= u64::MAX / MUL1,
    ensures
        secret_after(s, n) < MOD,
    decreases n,
{
    if n > 1 {
        lemma_secret_after_bound(s, (n - 1) as nat);
        let t = secret_after(s, (n - 1) as nat);
        assert(t <= u64::MAX / MUL1);
    }
    let t = secret_after(s, (n - 1) as nat);
    let a = ((t ^ ((t * MUL1) as u64)) % MOD) as u64;
    let b = ((a ^ (a / DIV)) % MOD) as u64;
    assert(((b ^ ((b * MUL2) as u64)) % MOD) < MOD);
}

/// The sum, over the buyers' initial secrets `seeds`, of each one's secret
/// `n` steps on.
pub fn sum_of_secrets(seeds: &Vec<u64>, n: u64) -> (r: u64)
    requires
        n >= 1,
        seeds.len() <= u32::MAX,
        forall|i: int| 0 <= i < seeds.len() ==> #[trigger] seeds@[i] <= u64::MAX / MUL1,
    ensures
        r == secrets_sum(seeds@, n as nat, seeds@.len() as int),
{
    let mut total: u64 = 0;
    let mut i: usize = 0;
    proof {
        assert forall|j: int| 0 <= j < seeds.len() implies secret_after(#[trigger] seeds@[j], n as nat) < MOD by {
            lemma_secret_after_bound(seeds@[j], n as nat);
        }
    }
    while i < seeds.len()
        invariant
            i <= seeds.len(),
            n >= 1,
            seeds.len() <= u32::MAX,
            forall|j: int| 0 <= j < seeds.len() ==> #[trigger] seeds@[j] <= u64::MAX / MUL1,
            forall|j: int| 0 <= j < seeds.len() ==> secret_after(#[trigger] seeds@[j], n as nat) < MOD,
            total == secrets_sum(seeds@, n as nat, i as int),
        decreases seeds.len() - i,
    {
        proof {
            lemma_secrets_sum_bound(seeds@, n as nat, i as int);
            assert(i * MOD <= u32::MAX * MOD) by (nonlinear_arith)
                requires
                    i <= u32::MAX,
            ;
        }
        let v = nth_secret(seeds[i], n);
        total = total + v;
        i = i + 1;
    }
    total
}


/// Sequences of four price changes, each from -9 to 9, read in base 19.
pub const KEYS: u64 = 130321;

/// The price (last digit) of the secret `k` steps after `seed`.
pub open spec fn price(seed: u64, k: nat) -> int {
    secret_after(seed, k) as int % 10
}

/// The price change at step `k` (from 1).
pub open spec fn change(seed: u64, k: nat) -> int {
    price(seed, k) - price(seed, (k - 1) as nat)
}

/// The last (up to) four price changes up to step `k`, each shifted by 9 and
/// read as digits in base 19.
pub open spec fn window(seed: u64, k: nat) -> int
    decreases k,
{
    if k == 0 {
        0
    } else {
        (window(seed, (k - 1) as nat) * 19 + change(seed, k) + 9) % (KEYS as int)
    }
}

/// The price at the first step from 4 to `k` whose last four changes read
/// `key`, if any: what the buyer pays when told to sell at that sequence.
pub open spec fn first_sale(seed: u64, key: int, k: nat) -> Option<int>
    decreases k,
{
    if k < 4 {
        None
    } else {
        match first_sale(seed, key, (k - 1) as nat) {
            Some(p) => Some(p),
            None => if window(seed, k) == key {
                Some(price(seed, k))
            } else {
                None
            },
        }
    }
}

/// The bananas that the first `b` buyers pay for `key` within `n` steps.
pub open spec fn bananas(seeds: Seq<u64>, b: int, n: nat, key: int) -> int
    decreases b,
{
    if b <= 0 {
        0
    } else {
        bananas(seeds, b - 1, n, key) + match first_sale(seeds[b - 1], key, n) {
            Some(p) => p,
            None => 0,
        }
    }
}

/// The most bananas over the first `k` keys.
pub open spec fn most_bananas(seeds: Seq<u64>, n: nat, k: int) -> int
    decreases k,
{
    if k <= 0 {
        0
    } else {
        let m = most_bananas(seeds, n, k - 1);
        let t = bananas(seeds, seeds.len() as int, n, k - 1);
        if t > m {
            t
        } else {
            m
        }
    }
}

proof fn lemma_bananas_bound(seeds: Seq<u64>, b: int, n: nat, key: int)
    requires
        0 <= b,
    ensures
        0 <= bananas(seeds, b, n, key) <= 9 * b,
    decreases b,
{
    if b > 0 {
        lemma_bananas_bound(seeds, b - 1, n, key);
        lemma_first_sale_bound(seeds[b - 1], key, n);
    }
}

proof fn lemma_first_sale_bound(seed: u64, key: int, k: nat)
    ensures
        first_sale(seed, key, k) matches Some(p) ==> 0 <= p <= 9,
    decreases k,
{
    if k >= 4 {
        lemma_first_sale_bound(seed, key, (k - 1) as nat);
    }
}

/// The most bananas that the buyers with initial secrets `seeds` pay, over
/// all sequences of four price changes, when each sells at the first time
/// (within `n` steps) that the sequence appears.
pub fn best_bananas(seeds: &Vec<u64>, n: u64) -> (r: u64)
    requires
        seeds.len() <= u32::MAX,
        forall|i: int| 0 <= i < seeds.len() ==> #[trigger] seeds@[i] <= u64::MAX / MUL1,
    ensures
        r == most_bananas(seeds@, n as nat, KEYS as int),
{
    let mut totals: Vec<u64> = Vec::new();
    let mut stamps: Vec<u64> = Vec::new();
    let mut k: u64 = 0;
    while k < KEYS
        invariant
            k <= KEYS,
            totals@.len() == k,
            stamps@.len() == k,
            forall|j: int| 0 <= j < k ==> #[trigger] totals@[j] == 0,
            forall|j: int| 0 <= j < k ==> #[trigger] stamps@[j] == 0,
        decreases KEYS - k,
    {
        totals.push(0);
        stamps.push(0);
        k = k + 1;
    }
    let mut b: usize = 0;
    while b < seeds.len()
        invariant
            seeds.len() <= u32::MAX,
            forall|i: int| 0 <= i < seeds.len() ==> #[trigger] seeds@[i] <= u64::MAX / MUL1,
            b <= seeds.len(),
            totals@.len() == KEYS,
            stamps@.len() == KEYS,
            forall|j: int| 0 <= j < KEYS ==> #[trigger] totals@[j] == bananas(seeds@, b as int, n as nat, j),
            forall|j: int| 0 <= j < KEYS ==> #[trigger] stamps@[j] <= b,
        decreases seeds.len() - b,
    {
        let seed = seeds[b];
        let stamp = (b + 1) as u64;
        let mut s = seed;
        let mut prev = s % 10;
        let mut key: u64 = 0;
        let mut i: u64 = 0;
        let ghost start_totals = totals@;
        proof {
            assert forall|j: int| 0 <= j < KEYS implies #[trigger] bananas(seeds@, b + 1, n as nat, j) <= 9 * (b + 1) by {
                lemma_bananas_bound(seeds@, b + 1, n as nat, j);
            }
        }
        while i < n
            invariant
                seeds.len() <= u32::MAX,
                b < seeds.len(),
                seed == seeds@[b as int],
                seed <= u64::MAX / MUL1,
                stamp == b + 1,
                i <= n,
                s == secret_after(seed, i as nat),
                i >= 1 ==> s < MOD,
                prev == price(seed, i as nat),
                key == window(seed, i as nat),
                totals@.len() == KEYS,
                stamps@.len() == KEYS,
                forall|j: int| 0 <= j < KEYS ==> #[trigger] stamps@[j] <= stamp,
                forall|j: int| 0 <= j < KEYS ==> (#[trigger] stamps@[j] == stamp) == (first_sale(seed, j, i as nat) is Some),
                forall|j: int|
                    0 <= j < KEYS ==> #[trigger] totals@[j] == start_totals[j] + match first_sale(seed, j, i as nat) {
                        Some(p) => p,
                        None => 0,
                    },
                forall|j: int| 0 <= j < KEYS ==> #[trigger] start_totals[j] == bananas(seeds@, b as int, n as nat, j),
                forall|j: int| 0 <= j < KEYS ==> #[trigger] bananas(seeds@, b + 1, n as nat, j) <= 9 * (b + 1),
            decreases n - i,
        {
            proof {
                if i >= 1 {
                    assert(s <= u64::MAX / MUL1);
                }
            }
            s = get_next_secret(s);
            let p = s % 10;
            let diff = (p + 9 - prev) as u64;
            key = (key * 19 + diff) % KEYS;
            prev = p;
            i = i + 1;
            proof {
                assert(window(seed, i as nat) == (window(seed, (i - 1) as nat) * 19 + change(seed, i as nat) + 9) % (KEYS as int));
            }
            if i >= 4 && stamps[key as usize] != stamp {
                let ghost before = totals@;
                proof {
                    lemma_first_sale_bound(seed, key as int, n as nat);
                    lemma_first_sale_upto(seed, key as int, i as nat, n as nat);
                    lemma_bananas_bound(seeds@, b as int, n as nat, key as int);
                }
                stamps.set(key as usize, stamp);
                totals.set(key as usize, totals[key as usize] + p);
            }
        }
        proof {
            assert forall|j: int| 0 <= j < KEYS implies #[trigger] totals@[j] == bananas(seeds@, b + 1, n as nat, j) by {}
        }
        b = b + 1;
    }
    let mut best: u64 = 0;
    let mut j: usize = 0;
    while j < KEYS as usize
        invariant
            j <= KEYS,
            totals@.len() == KEYS,
            forall|x: int| 0 <= x < KEYS ==> #[trigger] totals@[x] == bananas(seeds@, seeds@.len() as int, n as nat, x),
            best == most_bananas(seeds@, n as nat, j as int),
        decreases KEYS - j,
    {
        if totals[j] > best {
            best = totals[j];
        }
        j = j + 1;
    }
    best
}

proof fn lemma_first_sale_upto(seed: u64, key: int, i: nat, n: nat)
    requires
        i <= n,
        first_sale(seed, key, i) is Some,
    ensures
        first_sale(seed, key, n) == first_sale(seed, key, i),
    decreases n - i,
{
    if i < n {
        lemma_first_sale_upto(seed, key, i, (n - 1) as nat);
    }
}

} // verus!
