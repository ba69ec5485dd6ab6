use vstd::prelude::*;
use std::collections::HashMap;
use vstd::std_specs::hash::group_hash_axioms;
use crate::calibration::{num_digits, pow10};

verus! {

broadcast use group_hash_axioms;

/// The number of stones that the stone engraved `n` becomes after `b` blinks:
/// at each blink a 0 becomes 1, a number with an even count of digits splits
/// into its left and right halves, and any other number is multiplied by 2024.
pub open spec fn stones(n: nat, b: nat) -> nat
    decreases b,
{
    if b == 0 {
        1
    } else if n == 0 {
        stones(1, (b - 1) as nat)
    } else if num_digits(n) % 2 == 0 {
        let h = pow10(num_digits(n) / 2);
        stones(n / h, (b - 1) as nat) + stones(n % h, (b - 1) as nat)
    } else {
        stones(n * 2024, (b - 1) as nat)
    }
}

/// Every engraving and every count along the way fits in a `u64`.
pub open spec fn fits(n: nat, b: nat) -> bool
    decreases b,
{
    if b == 0 {
        true
    } else if n == 0 {
        fits(1, (b - 1) as nat)
    } else if num_digits(n) % 2 == 0 {
        let h = pow10(num_digits(n) / 2);
        fits(n / h, (b - 1) as nat) && fits(n % h, (b - 1) as nat) && stones(n, b) <= u64::MAX
    } else {
        n * 2024 <= u64::MAX && fits(n * 2024, (b - 1) as nat)
    }
}

proof fn lemma_fits_bound(n: nat, b: nat)
    ensures
        fits(n, b) ==> stones(n, b) <= u64::MAX,
    decreases b,
{
    if b > 0 {
        if n == 0 {
            lemma_fits_bound(1, (b - 1) as nat);
        } else if num_digits(n) % 2 != 0 {
            lemma_fits_bound(n * 2024, (b - 1) as nat);
        }
    }
}

/// The number of stones that the first `k` stones of `s` become after `b` blinks.
pub open spec fn list_stones(s: Seq<u64>, b: nat, k: int) -> int
    decreases k,
{
    if k <= 0 {
        0
    } else {
        list_stones(s, b, k - 1) + stones(s[k - 1] as nat, b)
    }
}

/// Every engraving and count for the first `k` stones fits in a `u64`.
pub open spec fn list_fits(s: Seq<u64>, b: nat, k: int) -> bool
    decreases k,
{
    if k <= 0 {
        true
    } else {
        list_fits(s, b, k - 1) && fits(s[k - 1] as nat, b) && list_stones(s, b, k) <= u64::MAX
    }
}

/// The memo key for stone `n` at blink level `lvl`.
pub open spec fn memo_key(n: u64, lvl: u64) -> u128 {
    (n * 128 + lvl) as u128
}

/// Every entry of the memo holds the count for its stone and level.
pub open spec fn memo_ok(m: Map<u128, u64>, max_lvl: u64) -> bool {
    forall|k: u128|
        #[trigger] m.contains_key(k) ==> k % 128 <= max_lvl && fits((k / 128) as nat, (max_lvl - k % 128) as nat)
            && m[k] == stones((k / 128) as nat, (max_lvl - k % 128) as nat)
}

/// The number of decimal digits of `n`.
fn count_digits(n: u64) -> (r: u32)
    ensures
        r == num_digits(n as nat),
        r <= 20,
{
    let mut x = n;
    let mut k: u32 = 1;
    proof {
        assert(pow10(0) == 1);
        assert((x as int) * pow10(0) == x as int);
    }
    while x >= 10
        invariant
            num_digits(n as nat) == k - 1 + num_digits(x as nat),
            1 <= k <= 20,
            (x as int) * pow10((k - 1) as nat) <= n as int,
        decreases x,
    {
        proof {
            let p = pow10((k - 1) as nat);
            lemma_pow10_ge((k - 1) as nat);
            assert(pow10(k as nat) == 10 * p);
            assert(10 * p <= (x as int) * p) by (nonlinear_arith)
                requires
                    x >= 10,
                    p >= 1,
            ;
            assert(((x / 10) as int) * (10 * p) <= (x as int) * p) by (nonlinear_arith)
                requires
                    p >= 1,
                    x >= 0,
            ;
            if k >= 20 {
                lemma_pow10_mono(20, k as nat);
                lemma_pow10_20();
                assert(false);
            }
        }
        x = x / 10;
        k = k + 1;
    }
    k
}

proof fn lemma_pow10_20()
    ensures
        pow10(20) == 100000000000000000000,
{
    reveal_with_fuel(pow10, 21);
}

proof fn lemma_pow10_ge(k: nat)
    ensures
        pow10(k) >= 1,
        k == 19 ==> pow10(k) == 10000000000000000000,
        k >= 19 ==> pow10(k) >= 10000000000000000000,
    decreases k,
{
    if k > 0 {
        lemma_pow10_ge((k - 1) as nat);
    }
    if k == 19 {
        reveal_with_fuel(pow10, 20);
    }
}

/// Ten to the power `k`.
fn pow10_u64(k: u32) -> (r: u64)
    requires
        k <= 19,
    ensures
        r == pow10(k as nat),
{
    let mut r: u64 = 1;
    let mut i: u32 = 0;
    while i < k
        invariant
            i <= k <= 19,
            r == pow10(i as nat),
        decreases k - i,
    {
        proof {
            lemma_pow10_ge(19);
            lemma_pow10_mono(i as nat + 1, 19);
        }
        r = r * 10;
        i = i + 1;
    }
    r
}

proof fn lemma_pow10_mono(a: nat, b: nat)
    requires
        a <= b,
    ensures
        pow10(a) <= pow10(b),
    decreases b - a,
{
    if a < b {
        lemma_pow10_mono(a, (b - 1) as nat);
        lemma_pow10_ge((b - 1) as nat);
    }
}

/// The number of stones that the stones `contents` become after the blinks
/// from level `lvl` to `max_lvl`; `None` exactly when an engraving or a count
/// along the way does not fit in a `u64`.
pub fn compute_recursive(m: &mut HashMap<u128, u64>, contents: &Vec<u64>, max_lvl: u64, lvl: u64) -> (r: Option<u64>)
    requires
        lvl <= max_lvl < 128,
        memo_ok(old(m)@, max_lvl),
    ensures
        memo_ok(final(m)@, max_lvl),
        r matches Some(v) ==> list_fits(contents@, (max_lvl - lvl) as nat, contents@.len() as int) && v == list_stones(
            contents@,
            (max_lvl - lvl) as nat,
            contents@.len() as int,
        ),
        r is None ==> !list_fits(contents@, (max_lvl - lvl) as nat, contents@.len() as int),
    decreases max_lvl - lvl, 1int,
{
    let ghost b = (max_lvl - lvl) as nat;
    let mut t: u64 = 0;
    let mut i: usize = 0;
    while i < contents.len()
        invariant
            lvl <= max_lvl < 128,
            b == max_lvl - lvl,
            memo_ok(m@, max_lvl),
            i <= contents.len(),
            list_fits(contents@, b, i as int),
            t == list_stones(contents@, b, i as int),
        decreases contents.len() - i,
    {
        let n = contents[i];
        let key = (n as u128) * 128 + (lvl as u128);
        let v = match m.get(&key) {
            Some(v) => {
                let v = *v;
                proof {
                    assert(m@.contains_key(key));
                    assert(key / 128 == n && key % 128 == lvl);
                }
                v
            },
            None => {
                match compute_n(m, n, max_lvl, lvl) {
                    Some(v) => {
                        m.insert(key, v);
                        proof {
                            assert(key / 128 == n && key % 128 == lvl);
                        }
                        v
                    },
                    None => {
                        proof {
                            if list_fits(contents@, b, contents@.len() as int) {
                                lemma_list_fits_prefix(contents@, b, i + 1, contents@.len() as int);
                            }
                        }
                        return None;
                    },
                }
            },
        };
        match t.checked_add(v) {
            Some(s) => {
                t = s;
            },
            None => {
                proof {
                    if list_fits(contents@, b, contents@.len() as int) {
                        lemma_list_fits_prefix(contents@, b, i + 1, contents@.len() as int);
                    }
                }
                return None;
            },
        }
        i = i + 1;
    }
    Some(t)
}

proof fn lemma_list_fits_prefix(s: Seq<u64>, b: nat, m: int, n: int)
    requires
        0 <= m <= n,
        list_fits(s, b, n),
    ensures
        list_fits(s, b, m),
    decreases n - m,
{
    if m < n {
        lemma_list_fits_prefix(s, b, m, n - 1);
    }
}

/// The number of stones that stone `n` becomes after the blinks from level
/// `lvl` to `max_lvl`; `None` exactly when an engraving or a count along the
/// way does not fit in a `u64`.
pub fn compute_n(m: &mut HashMap<u128, u64>, n: u64, max_lvl: u64, lvl: u64) -> (r: Option<u64>)
    requires
        lvl <= max_lvl < 128,
        memo_ok(old(m)@, max_lvl),
    ensures
        memo_ok(final(m)@, max_lvl),
        r matches Some(v) ==> fits(n as nat, (max_lvl - lvl) as nat) && v == stones(n as nat, (max_lvl - lvl) as nat),
        r is None ==> !fits(n as nat, (max_lvl - lvl) as nat),
    decreases max_lvl - lvl, 0int,
{
    if lvl == max_lvl {
        return Some(1);
    }
    let ghost b = (max_lvl - lvl) as nat;
    let mut next: Vec<u64> = Vec::new();
    if n == 0 {
        next.push(1);
        assert(next@ =~= seq![1u64]);
    } else {
        let d = count_digits(n);
        if d % 2 == 0 {
            proof {
                lemma_pow10_ge((d / 2) as nat);
            }
            let h = pow10_u64(d / 2);
            next.push(n / h);
            next.push(n % h);
            assert(next@ =~= seq![(n as nat / pow10(num_digits(n as nat) / 2)) as u64, (n as nat % pow10(num_digits(n as nat) / 2)) as u64]);
        } else {
            match n.checked_mul(2024) {
                Some(v) => {
                    next.push(v);
                    assert(next@ =~= seq![(n * 2024) as u64]);
                },
                None => {
                    return None;
                },
            }
        }
    }
    let r = compute_recursive(m, &next, max_lvl, lvl + 1);
    proof {
        lemma_fits_bound(n as nat, b);
        if n != 0 && num_digits(n as nat) % 2 != 0 {
            lemma_fits_bound((n * 2024) as nat, (b - 1) as nat);
        }
        if n == 0 {
            lemma_fits_bound(1, (b - 1) as nat);
        }
        reveal_with_fuel(list_stones, 3);
        reveal_with_fuel(list_fits, 3);
    }
    r
}

/// The number of stones that `contents` become after `blinks` blinks; `None`
/// exactly when an engraving or a count along the way does not fit in a `u64`.
pub fn stone_count(contents: &Vec<u64>, blinks: u64) -> (r: Option<u64>)
    requires
        blinks < 128,
    ensures
        r matches Some(v) ==> list_fits(contents@, blinks as nat, contents@.len() as int) && v == list_stones(
            contents@,
            blinks as nat,
            contents@.len() as int,
        ),
        r is None ==> !list_fits(contents@, blinks as nat, contents@.len() as int),
{
    let mut m: HashMap<u128, u64> = HashMap::new();
    compute_recursive(&mut m, contents, blinks, 0)
}

} // verus!
