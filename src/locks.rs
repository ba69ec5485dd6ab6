use vstd::prelude::*;

verus! {

/// The number of pins in a lock.
pub const PINS: usize = 5;

/// The room that a lock and a key share in each column.
pub const SPACE: u16 = 5;

/// The key's heights and the lock's heights leave room in every column.
pub open spec fn fits(lock: Seq<u8>, key: Seq<u8>) -> bool {
    forall|p: int| 0 <= p < PINS ==> lock[p] + key[p] <= SPACE
}

/// How many of the first `n` keys fit `lock`.
pub open spec fn keys_fitting(lock: Seq<u8>, keys: Seq<[u8; 5]>, n: int) -> int
    decreases n,
{
    if n <= 0 {
        0
    } else {
        keys_fitting(lock, keys, n - 1) + if fits(lock, keys[n - 1]@) {
            1int
        } else {
            0int
        }
    }
}

/// How many pairs of one of the first `n` locks and one of `keys` fit.
pub open spec fn pairs_fitting(locks: Seq<[u8; 5]>, keys: Seq<[u8; 5]>, n: int) -> int
    decreases n,
{
    if n <= 0 {
        0
    } else {
        pairs_fitting(locks, keys, n - 1) + keys_fitting(locks[n - 1]@, keys, keys.len() as int)
    }
}

pub fn key_can_fit_lock(lock: [u8; 5], key: [u8; 5]) -> (r: bool)
    ensures
        r == fits(lock@, key@),
{
    let mut pin: usize = 0;
    while pin < PINS
        invariant
            pin <= PINS,
            forall|p: int| 0 <= p < pin ==> lock@[p] + key@[p] <= SPACE,
        decreases PINS - pin,
    {
        if lock[pin] as u16 + key[pin] as u16 > SPACE {
            return false;
        }
        pin = pin + 1;
    }
    true
}

proof fn lemma_keys_fitting_bounds(lock: Seq<u8>, keys: Seq<[u8; 5]>, n: int)
    requires
        n >= 0,
    ensures
        0 <= keys_fitting(lock, keys, n) <= n,
    decreases n,
{
    if n > 0 {
        lemma_keys_fitting_bounds(lock, keys, n - 1);
    }
}

proof fn lemma_pairs_fitting_bounds(locks: Seq<[u8; 5]>, keys: Seq<[u8; 5]>, n: int)
    requires
        n >= 0,
    ensures
        0 <= pairs_fitting(locks, keys, n) <= n * keys.len(),
    decreases n,
{
    if n > 0 {
        lemma_pairs_fitting_bounds(locks, keys, n - 1);
        lemma_keys_fitting_bounds(locks[n - 1]@, keys, keys.len() as int);
        assert((n - 1) * keys.len() + keys.len() == n * keys.len()) by (nonlinear_arith);
    }
}

/// How many pairs of a lock and a key fit together.
pub fn count_fitting_pairs(locks: &Vec<[u8; 5]>, keys: &Vec<[u8; 5]>) -> (r: usize)
    requires
        locks.len() * keys.len() <= usize::MAX,
    ensures
        r == pairs_fitting(locks@, keys@, locks@.len() as int),
{
    let mut total: usize = 0;
    let mut i: usize = 0;
    while i < locks.len()
        invariant
            i <= locks.len(),
            locks.len() * keys.len() <= usize::MAX,
            total == pairs_fitting(locks@, keys@, i as int),
        decreases locks.len() - i,
    {
        let mut j: usize = 0;
        let ghost base = total;
        proof {
            lemma_pairs_fitting_bounds(locks@, keys@, i as int + 1);
            lemma_keys_fitting_bounds(locks@[i as int]@, keys@, keys.len() as int);
            assert((i + 1) * keys.len() <= locks.len() * keys.len()) by (nonlinear_arith)
                requires
                    i + 1 <= locks.len(),
            ;
        }
        while j < keys.len()
            invariant
                i < locks.len(),
                j <= keys.len(),
                base == pairs_fitting(locks@, keys@, i as int),
                total == base + keys_fitting(locks@[i as int]@, keys@, j as int),
                pairs_fitting(locks@, keys@, i as int + 1) <= usize::MAX,
                keys_fitting(locks@[i as int]@, keys@, keys.len() as int) >= 0,
            decreases keys.len() - j,
        {
            proof {
                lemma_keys_fitting_bounds(locks@[i as int]@, keys@, j as int + 1);
                lemma_keys_fitting_prefix(locks@[i as int]@, keys@, j as int + 1, keys.len() as int);
            }
            if key_can_fit_lock(locks[i], keys[j]) {
                total = total + 1;
            }
            j = j + 1;
        }
        i = i + 1;
    }
    total
}

proof fn lemma_keys_fitting_prefix(lock: Seq<u8>, keys: Seq<[u8; 5]>, m: int, n: int)
    requires
        0 <= m <= n,
    ensures
        keys_fitting(lock, keys, m) <= keys_fitting(lock, keys, n),
    decreases n - m,
{
    if m < n {
        lemma_keys_fitting_prefix(lock, keys, m, n - 1);
    }
}


/// `#`: a filled cell of a schematic.
pub const FILLED: u8 = 35;

/// `.`: an empty cell of a schematic.
pub const EMPTY: u8 = 46;

/// The number of rows of a schematic.
pub const ROWS: usize = 7;

/// The last of the first `n` rows whose column `j` holds `sym`; -1 if none does.
pub open spec fn last_row(lines: Seq<Vec<u8>>, j: int, sym: u8, n: int) -> int
    decreases n,
{
    if n <= 0 {
        -1
    } else if lines[n - 1]@[j] == sym {
        n - 1
    } else {
        last_row(lines, j, sym, n - 1)
    }
}

/// The height that a schematic gives column `j`: for a lock (top row filled),
/// the last row holding `#`; for a key, 5 less the last row holding `.`; 0
/// where the column has no such row.
pub open spec fn column_height(lines: Seq<Vec<u8>>, is_lock: bool, j: int) -> int {
    if is_lock {
        let i = last_row(lines, j, FILLED, ROWS as int);
        if i < 0 { 0 } else { i }
    } else {
        let i = last_row(lines, j, EMPTY, ROWS as int);
        if i < 0 { 0 } else { 5 - i }
    }
}

/// The height of column `j` from the first `n` rows alone.
pub open spec fn height_after(lines: Seq<Vec<u8>>, j: int, is_lock: bool, n: int) -> int {
    let l = last_row(lines, j, if is_lock { FILLED } else { EMPTY }, n);
    if l < 0 {
        0
    } else if is_lock {
        l
    } else {
        5 - l
    }
}

/// Reads a schematic of seven rows of five cells: whether it is a lock (its
/// top row starts with `#`) and the height of each of its columns.
pub fn read_schematic(lines: &Vec<Vec<u8>>) -> (r: (bool, [u8; 5]))
    requires
        lines.len() >= ROWS,
        forall|i: int| 0 <= i < ROWS ==> (#[trigger] lines@[i])@.len() == PINS,
        lines@[0]@[0] != FILLED ==> forall|j: int| 0 <= j < PINS ==> lines@[6]@[j] != EMPTY,
    ensures
        r.0 == (lines@[0]@[0] == FILLED),
        forall|j: int| 0 <= j < PINS ==> r.1@[j] == column_height(lines@, r.0, j),
{
    let lock_mode = lines[0][0] == FILLED;
    let mut e: [u8; 5] = [0; 5];
    let mut i: usize = 0;
    while i < ROWS
        invariant
            i <= ROWS,
            lines.len() >= ROWS,
            forall|k: int| 0 <= k < ROWS ==> (#[trigger] lines@[k])@.len() == PINS,
            lock_mode == (lines@[0]@[0] == FILLED),
            !lock_mode ==> forall|j: int| 0 <= j < PINS ==> lines@[6]@[j] != EMPTY,
            forall|j: int|
                0 <= j < PINS ==> #[trigger] e@[j] == height_after(lines@, j, lock_mode, i as int),
        decreases ROWS - i,
    {
        let line = &lines[i];
        let mut j: usize = 0;
        while j < PINS
            invariant
                i < ROWS,
                j <= PINS,
                line@ == lines@[i as int]@,
                line@.len() == PINS,
                lines.len() >= ROWS,
                !lock_mode ==> forall|k: int| 0 <= k < PINS ==> lines@[6]@[k] != EMPTY,
                forall|k: int|
                    0 <= k < j ==> #[trigger] e@[k] == height_after(lines@, k, lock_mode, i + 1),
                forall|k: int|
                    j <= k < PINS ==> #[trigger] e@[k] == height_after(lines@, k, lock_mode, i as int),
            decreases PINS - j,
        {
            let c = line[j];
            if lock_mode {
                if c == FILLED {
                    e[j] = i as u8;
                }
            } else {
                if c == EMPTY {
                    assert(i < 6);
                    e[j] = (5 - i) as u8;
                }
            }
            j = j + 1;
        }
        i = i + 1;
    }
    (lock_mode, e)
}

} // verus!
