use vstd::prelude::*;

verus! {

/// What `regex::Regex::captures_iter` yields for `pattern` on `haystack`: for
/// each match in order, the UTF-8 bytes of each capture group (group 0 is the
/// whole match), `None` for a group that took no part in the match.
pub uninterp spec fn regex_captures(pattern: Seq<char>, haystack: Seq<char>) -> Seq<Seq<Option<Seq<u8>>>>;

/// The bytes of each group of each match.
pub open spec fn captures_view(v: Seq<Vec<Option<Vec<u8>>>>) -> Seq<Seq<Option<Seq<u8>>>> {
    v.map_values(
        |c: Vec<Option<Vec<u8>>>|
            c@.map_values(
                |g: Option<Vec<u8>>|
                    match g {
                        Some(b) => Some(b@),
                        None => None,
                    },
            ),
    )
}

/// Relies on `regex::Regex::new`, to compile `pattern` (`None` where it does
/// not compile), and on `regex::Regex::captures_iter`, whose matches and groups
/// are handed back as bytes.
#[verifier::external_body]
fn find_captures(pattern: &str, haystack: &str) -> (r: Option<Vec<Vec<Option<Vec<u8>>>>>)
    ensures
        r matches Some(v) ==> captures_view(v@) == regex_captures(pattern@, haystack@),
{
    let re = regex::Regex::new(pattern).ok()?;
    Some(
        re.captures_iter(haystack)
            .map(|c| c.iter().map(|g| g.map(|m| m.as_str().as_bytes().to_vec())).collect())
            .collect(),
    )
}

/// `0`.
pub const ZERO: u8 = 48;

/// The value of `s` read as a decimal number of one to three ASCII digits.
pub open spec fn small_number(s: Seq<u8>) -> Option<nat> {
    if 1 <= s.len() <= 3 && forall|i: int| 0 <= i < s.len() ==> ZERO <= #[trigger] s[i] <= ZERO + 9 {
        Some(decimal(s, s.len() as int))
    } else {
        None
    }
}

/// The value of the first `n` bytes of `s` read as decimal digits.
pub open spec fn decimal(s: Seq<u8>, n: int) -> nat
    decreases n,
{
    if n <= 0 {
        0
    } else {
        (decimal(s, n - 1) * 10 + (s[n - 1] - ZERO)) as nat
    }
}

/// The product of groups `a` and `b` of a match, where both are numbers of one
/// to three digits; otherwise 0.
pub open spec fn product_of(c: Seq<Option<Seq<u8>>>, a: int, b: int) -> nat {
    if 0 <= a < c.len() && 0 <= b < c.len() && c[a] is Some && c[b] is Some {
        match (small_number(c[a]->0), small_number(c[b]->0)) {
            (Some(x), Some(y)) => x * y,
            _ => 0,
        }
    } else {
        0
    }
}

/// The sum of the products of groups 1 and 2 over the first `n` matches.
pub open spec fn products_sum(caps: Seq<Seq<Option<Seq<u8>>>>, n: int) -> int
    decreases n,
{
    if n <= 0 {
        0
    } else {
        products_sum(caps, n - 1) + product_of(caps[n - 1], 1, 2)
    }
}

/// The bytes of `do()`.
pub open spec fn do_bytes() -> Seq<u8> {
    seq![100u8, 111, 40, 41]
}

/// The bytes of `don't()`.
pub open spec fn dont_bytes() -> Seq<u8> {
    seq![100u8, 111, 110, 39, 116, 40, 41]
}

/// The sum of the enabled products (groups 2 and 3) over the first `n`
/// matches, and whether products are enabled after them, starting `enabled`:
/// a match of `do()` enables them and one of `don't()` disables them.
pub open spec fn enabled_sum(caps: Seq<Seq<Option<Seq<u8>>>>, n: int, enabled: bool) -> (int, bool)
    decreases n,
{
    if n <= 0 {
        (0, enabled)
    } else {
        let (t, on) = enabled_sum(caps, n - 1, enabled);
        let c = caps[n - 1];
        let whole = if c.len() > 0 && c[0] is Some {
            c[0]->0
        } else {
            Seq::empty()
        };
        if whole == do_bytes() {
            (t, true)
        } else if whole == dont_bytes() {
            (t, false)
        } else if on {
            (t + product_of(c, 2, 3), on)
        } else {
            (t, on)
        }
    }
}

/// `s` read as a number of one to three ASCII digits.
fn read_small_number(s: &Vec<u8>) -> (r: Option<u32>)
    ensures
        r matches Some(v) ==> small_number(s@) == Some(v as nat) && v < 1000,
        r is None ==> small_number(s@) is None,
{
    if s.len() < 1 || s.len() > 3 {
        return None;
    }
    let mut v: u32 = 0;
    let mut i: usize = 0;
    while i < s.len()
        invariant
            1 <= s.len() <= 3,
            i <= s.len(),
            v == decimal(s@, i as int),
            v < 1000,
            v < if i == 0 { 1u32 } else if i == 1 { 10u32 } else if i == 2 { 100u32 } else { 1000u32 },
            forall|j: int| 0 <= j < i ==> ZERO <= #[trigger] s@[j] <= ZERO + 9,
        decreases s.len() - i,
    {
        let b = s[i];
        if b < ZERO || b > ZERO + 9 {
            return None;
        }
        v = v * 10 + (b - ZERO) as u32;
        i = i + 1;
    }
    Some(v)
}

/// The product of groups `a` and `b` of a match (see `product_of`).
fn group_product(c: &Vec<Option<Vec<u8>>>, a: usize, b: usize) -> (r: u32)
    ensures
        r == product_of(match_view(*c), a as int, b as int),
        r <= 998001,
{
    if a >= c.len() || b >= c.len() {
        return 0;
    }
    match (&c[a], &c[b]) {
        (Some(x), Some(y)) => {
            match (read_small_number(x), read_small_number(y)) {
                (Some(p), Some(q)) => {
                    assert(match_view(*c)[a as int] == Some(x@));
                    assert(match_view(*c)[b as int] == Some(y@));
                    assert(p * q <= 999 * 999) by (nonlinear_arith)
                        requires
                            p < 1000,
                            q < 1000,
                    ;
                    p * q
                },
                _ => 0,
            }
        },
        _ => 0,
    }
}

/// The group bytes of one match.
pub open spec fn match_view(c: Vec<Option<Vec<u8>>>) -> Seq<Option<Seq<u8>>> {
    c@.map_values(
        |g: Option<Vec<u8>>|
            match g {
                Some(b) => Some(b@),
                None => None,
            },
    )
}

/// The sum of the products of groups 1 and 2 over the matches `caps`.
pub fn sum_products(caps: &Vec<Vec<Option<Vec<u8>>>>) -> (r: u128)
    ensures
        r == products_sum(captures_view(caps@), caps@.len() as int),
{
    let mut total: u128 = 0;
    let mut i: usize = 0;
    while i < caps.len()
        invariant
            i <= caps.len(),
            total == products_sum(captures_view(caps@), i as int),
            total <= i * 998001,
        decreases caps.len() - i,
    {
        let p = group_product(&caps[i], 1, 2);
        assert(captures_view(caps@)[i as int] == match_view(caps@[i as int]));
        total = total + p as u128;
        i = i + 1;
    }
    total
}

/// Whether a match is exactly `word`.
fn match_is(c: &Vec<Option<Vec<u8>>>, word: &[u8]) -> (r: bool)
    ensures
        r == ((if c@.len() > 0 && c@[0] is Some {
            c@[0]->0@
        } else {
            Seq::empty()
        }) == word@),
{
    if c.len() == 0 {
        assert(word@.len() == 0 ==> word@ =~= Seq::<u8>::empty());
        return word.len() == 0;
    }
    match &c[0] {
        None => {
            assert(word@.len() == 0 ==> word@ =~= Seq::<u8>::empty());
            word.len() == 0
        },
        Some(w) => {
            assert(c@[0]->0@ == w@);
            if w.len() != word.len() {
                assert(w@.len() != word@.len());
                return false;
            }
            let mut i: usize = 0;
            while i < w.len()
                invariant
                    w.len() == word.len(),
                    c@.len() > 0,
                    c@[0] is Some,
                    c@[0]->0@ == w@,
                    i <= w.len(),
                    forall|j: int| 0 <= j < i ==> w@[j] == word@[j],
                decreases w.len() - i,
            {
                if w[i] != word[i] {
                    assert(w@[i as int] != word@[i as int]);
                    return false;
                }
                i = i + 1;
            }
            assert(w@ =~= word@);
            true
        },
    }
}

/// The sum of the enabled products over the matches `caps`, starting with
/// products `enabled` or not, and whether they are enabled at the end (see
/// `enabled_sum`).
pub fn sum_enabled_products(caps: &Vec<Vec<Option<Vec<u8>>>>, enabled: bool) -> (r: (u128, bool))
    ensures
        (r.0 as int, r.1) == enabled_sum(captures_view(caps@), caps@.len() as int, enabled),
{
    let do_word: [u8; 4] = [100, 111, 40, 41];
    let dont_word: [u8; 7] = [100, 111, 110, 39, 116, 40, 41];
    assert(do_word@ =~= do_bytes());
    assert(dont_word@ =~= dont_bytes());
    let mut total: u128 = 0;
    let mut on = enabled;
    let mut i: usize = 0;
    while i < caps.len()
        invariant
            i <= caps.len(),
            do_word@ == do_bytes(),
            dont_word@ == dont_bytes(),
            (total as int, on) == enabled_sum(captures_view(caps@), i as int, enabled),
            total <= i * 998001,
        decreases caps.len() - i,
    {
        let c = &caps[i];
        assert(captures_view(caps@)[i as int] == match_view(caps@[i as int]));
        proof {
            let cv = match_view(*c);
            assert(cv.len() == c@.len());
            if c@.len() > 0 {
                assert(cv[0] == match c@[0] {
                    Some(b) => Some(b@),
                    None => None,
                });
            }
        }
        if match_is(c, do_word.as_slice()) {
            on = true;
        } else if match_is(c, dont_word.as_slice()) {
            on = false;
        } else if on {
            let p = group_product(c, 2, 3);
            total = total + p as u128;
        }
        i = i + 1;
    }
    (total, on)
}

/// The sum of the products `a * b` of every `mul(a,b)` in `line` (`a` and `b`
/// of one to three digits); `None` only where the pattern fails to compile.
pub fn find_and_eval_muls_part1(line: &str) -> (r: Option<u128>)
    ensures
        r matches Some(t) ==> t == products_sum(
            regex_captures("mul\\(([0-9]{1,3}),([0-9]{1,3})\\)"@, line@),
            regex_captures("mul\\(([0-9]{1,3}),([0-9]{1,3})\\)"@, line@).len() as int,
        ),
{
    match find_captures("mul\\(([0-9]{1,3}),([0-9]{1,3})\\)", line) {
        Some(caps) => Some(sum_products(&caps)),
        None => None,
    }
}

/// The sum of the products of the `mul(a,b)` in `line` that are enabled,
/// where `do()` enables and `don't()` disables them, starting `enabled`; and
/// whether they are enabled at the end of the line. `None` only where the
/// pattern fails to compile.
pub fn find_and_eval_muls_part2(line: &str, enabled: bool) -> (r: Option<(u128, bool)>)
    ensures
        r matches Some(t) ==> (t.0 as int, t.1) == enabled_sum(
            regex_captures("(mul\\(([0-9]{1,3}),([0-9]{1,3})\\))|(do\\(\\))|(don't\\(\\))"@, line@),
            regex_captures("(mul\\(([0-9]{1,3}),([0-9]{1,3})\\))|(do\\(\\))|(don't\\(\\))"@, line@).len() as int,
            enabled,
        ),
{
    match find_captures("(mul\\(([0-9]{1,3}),([0-9]{1,3})\\))|(do\\(\\))|(don't\\(\\))", line) {
        Some(caps) => Some(sum_enabled_products(&caps, enabled)),
        None => None,
    }
}

} // verus!
