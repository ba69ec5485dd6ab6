use vstd::prelude::*;
use crate::dir::{Direction, cell_step, cell_step_spec, dir_to_usize};
use crate::maze::{find_start_end, is_first};

verus! {

/// `#`: an obstruction.
pub const OBSTRUCTION: u8 = 35;

/// `^`: the guard's starting cell; the guard starts facing up.
pub const GUARD: u8 = 94;

/// Where the guard stands and which way it faces.
pub type State = (usize, Direction);

/// The guard's next state from `pos` facing `d`, trying at most `tries`
/// quarter turns to the right: `None` once a step leaves the map; a guard
/// boxed in on all four sides stays where it is.
pub open spec fn turn_and_step(cells: Seq<u8>, w: int, pos: int, d: Direction, start: Direction, tries: nat) -> Option<State>
    decreases tries,
{
    match cell_step_spec(pos, d, w, cells.len() as int) {
        None => None,
        Some(c) => if cells[c] != OBSTRUCTION {
            Some((c as usize, d))
        } else if tries == 0 {
            Some((pos as usize, start))
        } else {
            turn_and_step(cells, w, pos, d.right_of(), start, (tries - 1) as nat)
        },
    }
}

/// One move of the guard: step forward, turning right in place before an
/// obstruction.
pub open spec fn next_state(cells: Seq<u8>, w: int, s: State) -> Option<State> {
    turn_and_step(cells, w, s.0 as int, s.1, s.1, 3)
}

/// The guard's state after `n` moves from `s`; `None` once it has left.
pub open spec fn walk(cells: Seq<u8>, w: int, s: State, n: nat) -> Option<State>
    decreases n,
{
    if n == 0 {
        Some(s)
    } else {
        match walk(cells, w, s, (n - 1) as nat) {
            None => None,
            Some(t) => next_state(cells, w, t),
        }
    }
}

/// The guard is in a state, on cell `c`.
pub open spec fn stands_on(o: Option<State>, c: int) -> bool {
    match o {
        Some(t) => t.0 == c,
        None => false,
    }
}

/// The guard stands on `c` at some point of its patrol from `s`.
pub open spec fn visits(cells: Seq<u8>, w: int, s: State, c: int) -> bool {
    exists|n: nat| stands_on(#[trigger] walk(cells, w, s, n), c)
}

/// The guard leaves the map at some point of its patrol from `s`.
pub open spec fn leaves(cells: Seq<u8>, w: int, s: State) -> bool {
    exists|n: nat| #[trigger] walk(cells, w, s, n) is None
}

/// The number of the first `k` cells that the guard visits.
pub open spec fn visited_count(cells: Seq<u8>, w: int, s: State, k: int) -> int
    decreases k,
{
    if k <= 0 {
        0
    } else {
        visited_count(cells, w, s, k - 1) + if visits(cells, w, s, k - 1) {
            1int
        } else {
            0int
        }
    }
}

proof fn lemma_walk_add(cells: Seq<u8>, w: int, s: State, a: nat, b: nat)
    ensures
        walk(cells, w, s, a + b) == match walk(cells, w, s, a) {
            None => None,
            Some(t) => walk(cells, w, t, b),
        },
    decreases b,
{
    if b > 0 {
        lemma_walk_add(cells, w, s, a, (b - 1) as nat);
        assert((a + b - 1) as nat == a + (b - 1) as nat);
        if let Some(t) = walk(cells, w, s, a) {
            if walk(cells, w, t, (b - 1) as nat) is None {
                assert(walk(cells, w, t, b) is None);
            }
        }
    } else {
        assert(a + b == a);
    }
}

proof fn lemma_left_stays_left(cells: Seq<u8>, w: int, s: State, a: nat, b: nat)
    requires
        a <= b,
        walk(cells, w, s, a) is None,
    ensures
        walk(cells, w, s, b) is None,
    decreases b - a,
{
    if a < b {
        lemma_left_stays_left(cells, w, s, a, (b - 1) as nat);
    }
}

/// A patrol that comes back to an earlier state repeats forever: it never
/// leaves, and it visits no cell beyond those of its first `n + 1` moves.
proof fn lemma_cycle(cells: Seq<u8>, w: int, s: State, i: nat, n: nat, m: nat)
    requires
        i <= n,
        walk(cells, w, s, n + 1) == walk(cells, w, s, i),
        walk(cells, w, s, i) is Some,
    ensures
        walk(cells, w, s, m) is Some,
        exists|j: nat| j <= n && walk(cells, w, s, j) == walk(cells, w, s, m),
    decreases m,
{
    if m <= n {
        assert(walk(cells, w, s, m) is Some) by {
            if walk(cells, w, s, m) is None {
                lemma_left_stays_left(cells, w, s, m, (n + 1) as nat);
            }
        }
    } else {
        let back = (m - (n + 1 - i)) as nat;
        lemma_walk_add(cells, w, s, (n + 1) as nat, (m - n - 1) as nat);
        lemma_walk_add(cells, w, s, i, (m - n - 1) as nat);
        assert((n + 1) as nat + (m - n - 1) as nat == m);
        assert(i + (m - n - 1) as nat == back);
        lemma_cycle(cells, w, s, i, n, back);
    }
}


fn turn_and_step_exec(cells: &Vec<u8>, w: usize, pos: usize, d: Direction, start: Direction, tries: u32) -> (r: Option<State>)
    requires
        w > 0,
        pos < cells.len(),
    ensures
        r == turn_and_step(cells@, w as int, pos as int, d, start, tries as nat),
        r matches Some(t) ==> t.0 < cells.len(),
    decreases tries,
{
    match cell_step(pos, d, w, cells.len()) {
        None => None,
        Some(c) => if cells[c] != OBSTRUCTION {
            Some((c, d))
        } else if tries == 0 {
            Some((pos, start))
        } else {
            turn_and_step_exec(cells, w, pos, d.rotate_right(), start, tries - 1)
        },
    }
}

/// How many entries of `s` among the first `k` are set.
pub open spec fn count_true(s: Seq<bool>, k: int) -> int
    decreases k,
{
    if k <= 0 {
        0
    } else {
        count_true(s, k - 1) + if s[k - 1] {
            1int
        } else {
            0int
        }
    }
}

proof fn lemma_count_true_bound(s: Seq<bool>, k: int)
    requires
        0 <= k,
    ensures
        0 <= count_true(s, k) <= k,
    decreases k,
{
    if k > 0 {
        lemma_count_true_bound(s, k - 1);
    }
}

proof fn lemma_count_true_set(s: Seq<bool>, i: int, k: int)
    requires
        0 <= i < s.len(),
        !s[i],
        0 <= k <= s.len(),
    ensures
        count_true(s.update(i, true), k) == count_true(s, k) + if i < k {
            1int
        } else {
            0int
        },
    decreases k,
{
    if k > 0 {
        lemma_count_true_set(s, i, k - 1);
    }
}

/// The code of a state among `4 * len`.
pub open spec fn code(t: State) -> int {
    t.0 * 4 + t.1.index_of()
}

/// The state `t` comes up in the first `n + 1` states of the patrol from `s`.
pub open spec fn seen_by(cells: Seq<u8>, w: int, s: State, n: nat, t: State) -> bool {
    exists|j: nat| j <= n && #[trigger] walk(cells, w, s, j) == Some(t)
}

/// The guard stands on `c` in one of the first `n + 1` states of its patrol.
pub open spec fn stood_by(cells: Seq<u8>, w: int, s: State, n: nat, c: int) -> bool {
    exists|j: nat| j <= n && stands_on(#[trigger] walk(cells, w, s, j), c)
}

/// Whether the guard, starting on `start` facing up, patrols forever (it never
/// leaves the map), and for each cell whether the guard stands on it.
pub fn check_for_loop(cells: &Vec<u8>, w: usize, start: usize) -> (r: (bool, Vec<bool>))
    requires
        w > 0,
        start < cells.len(),
        4 * cells.len() <= usize::MAX,
    ensures
        r.0 == !leaves(cells@, w as int, (start, Direction::Up)),
        r.1@.len() == cells@.len(),
        forall|c: int| 0 <= c < cells@.len() ==> #[trigger] r.1@[c] == visits(cells@, w as int, (start, Direction::Up), c),
{
    let ghost g = cells@;
    let ghost wi = w as int;
    let ghost s0: State = (start, Direction::Up);
    let len = cells.len();
    let mut smarks: Vec<bool> = Vec::new();
    let mut k: usize = 0;
    while k < 4 * len
        invariant
            k <= 4 * len,
            4 * len <= usize::MAX,
            smarks@.len() == k,
            forall|j: int| 0 <= j < k ==> !#[trigger] smarks@[j],
        decreases 4 * len - k,
    {
        smarks.push(false);
        k = k + 1;
    }
    let mut cmarks: Vec<bool> = Vec::new();
    k = 0;
    while k < len
        invariant
            k <= len,
            cmarks@.len() == k,
            forall|j: int| 0 <= j < k ==> !#[trigger] cmarks@[j],
        decreases len - k,
    {
        cmarks.push(false);
        k = k + 1;
    }
    let mut cur: State = (start, Direction::Up);
    let c0 = start * 4 + dir_to_usize(Direction::Up);
    proof {
        lemma_count_true_set(smarks@, c0 as int, smarks@.len() as int);
        lemma_count_true_zero(smarks@, smarks@.len() as int);
    }
    smarks.set(c0, true);
    cmarks.set(start, true);
    let mut seen: usize = 1;
    let ghost mut n: nat = 0;
    proof {
        assert(walk(g, wi, s0, 0) == Some(s0));
        assert forall|t: State| t.0 < len implies #[trigger] smarks@[code(t)] == seen_by(g, wi, s0, 0, t) by {
            if code(t) == c0 {
                assert(t == s0);
            }
            if seen_by(g, wi, s0, 0, t) {
                let j = choose|j: nat| j <= 0 && #[trigger] walk(g, wi, s0, j) == Some(t);
                assert(j == 0);
            }
        }
        assert forall|c: int| 0 <= c < len implies #[trigger] cmarks@[c] == stood_by(g, wi, s0, 0, c) by {
            if stood_by(g, wi, s0, 0, c) {
                let j = choose|j: nat| j <= 0 && stands_on(#[trigger] walk(g, wi, s0, j), c);
                assert(j == 0);
            }
            if c == start {
                assert(stands_on(walk(g, wi, s0, 0), c));
            }
        }
    }
    loop
        invariant
            w > 0,
            wi == w,
            g == cells@,
            len == cells.len(),
            4 * len <= usize::MAX,
            s0 == (start, Direction::Up),
            smarks@.len() == 4 * len,
            cmarks@.len() == len,
            cur.0 < len,
            walk(g, wi, s0, n) == Some(cur),
            seen == count_true(smarks@, smarks@.len() as int),
            forall|t: State| t.0 < len ==> #[trigger] smarks@[code(t)] == seen_by(g, wi, s0, n, t),
            forall|c: int| 0 <= c < len ==> #[trigger] cmarks@[c] == stood_by(g, wi, s0, n, c),
        decreases 4 * len - seen,
    {
        proof {
            lemma_count_true_bound(smarks@, smarks@.len() as int);
        }
        let nx = turn_and_step_exec(cells, w, cur.0, cur.1, cur.1, 3);
        assert(walk(g, wi, s0, n + 1) == nx);
        match nx {
            None => {
                proof {
                    assert(leaves(g, wi, s0));
                    assert forall|c: int| 0 <= c < len implies #[trigger] cmarks@[c] == visits(g, wi, s0, c) by {
                        if visits(g, wi, s0, c) {
                            let m = choose|m: nat| stands_on(#[trigger] walk(g, wi, s0, m), c);
                            if m > n {
                                lemma_left_stays_left(g, wi, s0, n + 1, m);
                            }
                        }
                        if stood_by(g, wi, s0, n, c) {
                            let j = choose|j: nat| j <= n && stands_on(#[trigger] walk(g, wi, s0, j), c);
                            assert(stands_on(walk(g, wi, s0, j), c));
                        }
                    }
                }
                return (false, cmarks);
            },
            Some(t) => {
                let ct = t.0 * 4 + dir_to_usize(t.1);
                if smarks[ct] {
                    proof {
                        assert(code(t) == ct as int);
                        assert(smarks@[code(t)]);
                        assert(seen_by(g, wi, s0, n, t));
                        let i = choose|j: nat| j <= n && #[trigger] walk(g, wi, s0, j) == Some(t);
                        assert forall|m: nat| #[trigger] walk(g, wi, s0, m) is Some by {
                            lemma_cycle(g, wi, s0, i, n, m);
                        }
                        assert(!leaves(g, wi, s0));
                        assert forall|c: int| 0 <= c < len implies #[trigger] cmarks@[c] == visits(g, wi, s0, c) by {
                            if visits(g, wi, s0, c) {
                                let m = choose|m: nat| stands_on(#[trigger] walk(g, wi, s0, m), c);
                                lemma_cycle(g, wi, s0, i, n, m);
                                let j = choose|j: nat| j <= n && walk(g, wi, s0, j) == walk(g, wi, s0, m);
                                assert(stands_on(walk(g, wi, s0, j), c));
                            }
                            if stood_by(g, wi, s0, n, c) {
                                let j = choose|j: nat| j <= n && stands_on(#[trigger] walk(g, wi, s0, j), c);
                                assert(stands_on(walk(g, wi, s0, j), c));
                            }
                        }
                    }
                    return (true, cmarks);
                }
                let ghost sm0 = smarks@;
                proof {
                    assert(code(t) == ct as int);
                    lemma_count_true_set(smarks@, ct as int, smarks@.len() as int);
                }
                let ghost cm0 = cmarks@;
                smarks.set(ct, true);
                cmarks.set(t.0, true);
                proof {
                    assert(code(t) == ct as int);
                    assert(!sm0[ct as int]);
                    lemma_count_true_bound(smarks@, smarks@.len() as int);
                }
                seen = seen + 1;
                cur = t;
                proof {
                    let n1 = (n + 1) as nat;
                    assert forall|u: State| u.0 < len implies #[trigger] smarks@[code(u)] == seen_by(g, wi, s0, n1, u) by {
                        if seen_by(g, wi, s0, n1, u) {
                            let j = choose|j: nat| j <= n1 && #[trigger] walk(g, wi, s0, j) == Some(u);
                            if j <= n {
                                assert(seen_by(g, wi, s0, n, u));
                            }
                        }
                        if seen_by(g, wi, s0, n, u) {
                            let j = choose|j: nat| j <= n && #[trigger] walk(g, wi, s0, j) == Some(u);
                            assert(walk(g, wi, s0, j) == Some(u) && j <= n1);
                        }
                        if u == t {
                            assert(walk(g, wi, s0, n1) == Some(u));
                        }
                        if code(u) == ct as int {
                            assert(u == t);
                        }
                    }
                    assert forall|c: int| 0 <= c < len implies #[trigger] cmarks@[c] == stood_by(g, wi, s0, n1, c) by {
                        if stood_by(g, wi, s0, n1, c) {
                            let j = choose|j: nat| j <= n1 && stands_on(#[trigger] walk(g, wi, s0, j), c);
                            if j <= n {
                                assert(stood_by(g, wi, s0, n, c));
                            }
                        }
                        if stood_by(g, wi, s0, n, c) {
                            let j = choose|j: nat| j <= n && stands_on(#[trigger] walk(g, wi, s0, j), c);
                            assert(stands_on(walk(g, wi, s0, j), c));
                        }
                        if c == t.0 {
                            assert(stands_on(walk(g, wi, s0, n1), c));
                        }
                    }
                    n = n1;
                }
            },
        }
    }
}

proof fn lemma_count_true_zero(s: Seq<bool>, k: int)
    requires
        0 <= k <= s.len(),
        forall|j: int| 0 <= j < s.len() ==> !#[trigger] s[j],
    ensures
        count_true(s, k) == 0,
    decreases k,
{
    if k > 0 {
        lemma_count_true_zero(s, k - 1);
    }
}


proof fn lemma_visited_count_bound(cells: Seq<u8>, w: int, s: State, k: int)
    requires
        0 <= k,
    ensures
        0 <= visited_count(cells, w, s, k) <= k,
    decreases k,
{
    if k > 0 {
        lemma_visited_count_bound(cells, w, s, k - 1);
    }
}

/// The number of distinct cells that the guard stands on, starting on the
/// first `^` facing up, before leaving the map (or, if it never does, ever);
/// `None` if there is no `^`.
pub fn count_patrolled(cells: &Vec<u8>, w: usize) -> (r: Option<u64>)
    requires
        w > 0,
        4 * cells.len() <= usize::MAX,
    ensures
        (forall|j: int| 0 <= j < cells@.len() ==> cells@[j] != GUARD) ==> r is None,
        forall|s: int|
            is_first(cells@, GUARD, s) ==> r == Some(
                visited_count(cells@, w as int, (s as usize, Direction::Up), cells@.len() as int) as u64,
            ),
{
    let start = match find_start_end(cells, GUARD) {
        Some(s) => s,
        None => {
            return None;
        },
    };
    let (_, visited) = check_for_loop(cells, w, start);
    let ghost s0: State = (start, Direction::Up);
    let mut count: u64 = 0;
    let mut c: usize = 0;
    while c < cells.len()
        invariant
            visited@.len() == cells@.len(),
            forall|x: int| 0 <= x < cells@.len() ==> #[trigger] visited@[x] == visits(cells@, w as int, s0, x),
            c <= cells.len(),
            count == visited_count(cells@, w as int, s0, c as int),
            count <= c,
        decreases cells.len() - c,
    {
        if visited[c] {
            count = count + 1;
        }
        c = c + 1;
    }
    proof {
        assert forall|s: int| is_first(cells@, GUARD, s) implies s == start by {}
    }
    Some(count)
}

/// Over the first `k` cells: how many are spots where one new obstruction
/// traps the guard in a loop. A spot is a cell of the patrol other than the
/// start.
pub open spec fn loop_spots(cells: Seq<u8>, w: int, s: State, k: int) -> int
    decreases k,
{
    if k <= 0 {
        0
    } else {
        loop_spots(cells, w, s, k - 1) + if visits(cells, w, s, k - 1) && k - 1 != s.0 && !leaves(
            cells.update(k - 1, OBSTRUCTION),
            w,
            s,
        ) {
            1int
        } else {
            0int
        }
    }
}

/// The number of cells of the guard's patrol (the start excepted) where one
/// new obstruction makes the guard patrol forever; `None` if there is no `^`.
pub fn count_loop_spots(cells: &Vec<u8>, w: usize) -> (r: Option<u64>)
    requires
        w > 0,
        4 * cells.len() <= usize::MAX,
    ensures
        (forall|j: int| 0 <= j < cells@.len() ==> cells@[j] != GUARD) ==> r is None,
        forall|s: int|
            is_first(cells@, GUARD, s) ==> r == Some(
                loop_spots(cells@, w as int, (s as usize, Direction::Up), cells@.len() as int) as u64,
            ),
{
    let start = match find_start_end(cells, GUARD) {
        Some(s) => s,
        None => {
            return None;
        },
    };
    let (_, visited) = check_for_loop(cells, w, start);
    let ghost s0: State = (start, Direction::Up);
    let mut count: u64 = 0;
    let mut c: usize = 0;
    while c < cells.len()
        invariant
            w > 0,
            start < cells.len(),
            4 * cells.len() <= usize::MAX,
            s0 == (start, Direction::Up),
            visited@.len() == cells@.len(),
            forall|x: int| 0 <= x < cells@.len() ==> #[trigger] visited@[x] == visits(cells@, w as int, s0, x),
            c <= cells.len(),
            count == loop_spots(cells@, w as int, s0, c as int),
            count <= c,
        decreases cells.len() - c,
    {
        if visited[c] && c != start {
            let mut blocked = cells.clone();
            assert(blocked@ =~= cells@);
            blocked.set(c, OBSTRUCTION);
            let (trapped, _) = check_for_loop(&blocked, w, start);
            if trapped {
                count = count + 1;
            }
        }
        c = c + 1;
    }
    proof {
        assert forall|s: int| is_first(cells@, GUARD, s) implies s == start by {}
    }
    Some(count)
}

} // verus!
