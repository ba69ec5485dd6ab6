use vstd::prelude::*;

verus! {

/// The number of decimal digits of `n`.
pub open spec fn num_digits(n: nat) -> nat
    decreases n,
{
    if n < 10 {
        1
    } else {
        1 + num_digits(n / 10)
    }
}

/// Ten to the power `k`.
pub open spec fn pow10(k: nat) -> nat
    decreases k,
{
    if k == 0 {
        1
    } else {
        10 * pow10((k - 1) as nat)
    }
}

/// The digits of `a` followed by those of `b`, read as one number.
pub open spec fn concat(a: int, b: nat) -> int {
    a * pow10(num_digits(b)) + b
}

/// Whether some choice of `*`, `+` (and, with `concat_ops`, `||`) between
/// `total` and the operands from `start` on, applied left to right, gives
/// `target`. A running value above the target is given up on.
pub open spec fn solvable(target: int, ops: Seq<u64>, start: int, total: int, concat_ops: bool) -> bool
    decreases ops.len() - start,
{
    if total > target {
        false
    } else if start >= ops.len() || start < 0 {
        total == target
    } else {
        solvable(target, ops, start + 1, total * ops[start], concat_ops) || solvable(
            target,
            ops,
            start + 1,
            total + ops[start],
            concat_ops,
        ) || (concat_ops && solvable(target, ops, start + 1, concat(total, ops[start] as nat), concat_ops))
    }
}

proof fn lemma_pow10_pos(k: nat)
    ensures
        pow10(k) >= 1,
        k >= 1 ==> pow10(k) >= 10,
    decreases k,
{
    if k > 0 {
        lemma_pow10_pos((k - 1) as nat);
    }
}

/// The digits of `a` followed by those of `b`, if that number fits in a `u64`.
fn concat_numbers(a: u64, b: u64) -> (r: Option<u64>)
    ensures
        r matches Some(v) ==> v == concat(a as int, b as nat),
        r is None ==> concat(a as int, b as nat) > u64::MAX,
{
    let mut x = b;
    let mut r = a;
    loop
        invariant_except_break
            a * pow10(num_digits(b as nat)) == r * pow10(num_digits(x as nat)),
        ensures
            a * pow10(num_digits(b as nat)) == r,
        decreases x,
    {
        proof {
            lemma_pow10_pos(num_digits(x as nat));
            assert(r * pow10(num_digits(x as nat)) >= r * 10) by (nonlinear_arith)
                requires
                    pow10(num_digits(x as nat)) >= 10,
                    r >= 0,
            ;
        }
        match r.checked_mul(10) {
            None => {
                return None;
            },
            Some(m) => {
                r = m;
            },
        }
        if x < 10 {
            assert(pow10(1) == 10 * pow10(0));
            break;
        }
        proof {
            assert(pow10(num_digits(x as nat)) == 10 * pow10(num_digits((x / 10) as nat)));
            assert((r / 10) * (10 * pow10(num_digits((x / 10) as nat))) == r * pow10(num_digits((x / 10) as nat)))
                by (nonlinear_arith)
                requires
                    r % 10 == 0,
            ;
        }
        x = x / 10;
    }
    r.checked_add(b)
}

/// `target` if some choice of operators between `total` and the operands
/// from `start` on gives it (see `solvable`), else 0.
pub fn permute_recursive(target: u64, ops: &Vec<u64>, start: usize, total: u64, concat_ops: bool) -> (r: u64)
    requires
        start <= ops.len(),
    ensures
        r == if solvable(target as int, ops@, start as int, total as int, concat_ops) {
            target
        } else {
            0
        },
    decreases ops.len() - start,
{
    if total > target {
        return 0;
    }
    if start == ops.len() {
        return if total == target {
            total
        } else {
            0
        };
    }
    let op = ops[start];
    let t = match total.checked_mul(op) {
        Some(v) => permute_recursive(target, ops, start + 1, v, concat_ops),
        None => {
            assert(!solvable(target as int, ops@, start + 1, total * op, concat_ops));
            0
        },
    };
    if t == target {
        proof {
            if total * op > u64::MAX {
                assert(!solvable(target as int, ops@, start + 1, total * op, concat_ops));
            }
        }
        return t;
    }
    let t = match total.checked_add(op) {
        Some(v) => permute_recursive(target, ops, start + 1, v, concat_ops),
        None => {
            assert(!solvable(target as int, ops@, start + 1, total + op, concat_ops));
            0
        },
    };
    if t == target {
        return t;
    }
    if concat_ops {
        let t = match concat_numbers(total, op) {
            Some(v) => permute_recursive(target, ops, start + 1, v, concat_ops),
            None => {
                assert(!solvable(target as int, ops@, start + 1, concat(total as int, op as nat), concat_ops));
                0
            },
        };
        if t == target {
            return t;
        }
    }
    0
}

/// The sum of the targets of the first `n` equations that some choice of
/// operators solves.
pub open spec fn calibration_sum(targets: Seq<u64>, operands: Seq<Vec<u64>>, n: int, concat_ops: bool) -> int
    decreases n,
{
    if n <= 0 {
        0
    } else {
        calibration_sum(targets, operands, n - 1, concat_ops) + if operands[n - 1]@.len() > 0 && solvable(
            targets[n - 1] as int,
            operands[n - 1]@,
            1,
            operands[n - 1]@[0] as int,
            concat_ops,
        ) {
            targets[n - 1] as int
        } else {
            0
        }
    }
}

/// The sum of all the first `n` targets.
pub open spec fn targets_sum(targets: Seq<u64>, n: int) -> int
    decreases n,
{
    if n <= 0 {
        0
    } else {
        targets_sum(targets, n - 1) + targets[n - 1]
    }
}

proof fn lemma_calibration_bound(targets: Seq<u64>, operands: Seq<Vec<u64>>, n: int, concat_ops: bool)
    requires
        0 <= n,
    ensures
        0 <= calibration_sum(targets, operands, n, concat_ops) <= targets_sum(targets, n),
    decreases n,
{
    if n > 0 {
        lemma_calibration_bound(targets, operands, n - 1, concat_ops);
    }
}

proof fn lemma_targets_sum_mono(targets: Seq<u64>, m: int, n: int)
    requires
        0 <= m <= n,
    ensures
        targets_sum(targets, m) <= targets_sum(targets, n),
    decreases n - m,
{
    if m < n {
        lemma_targets_sum_mono(targets, m, n - 1);
    }
}

/// The sum of the targets of the equations that some choice of operators
/// solves (`concat_ops`: with `||` among the operators).
pub fn solve(targets: &Vec<u64>, operands: &Vec<Vec<u64>>, concat_ops: bool) -> (r: u64)
    requires
        targets.len() == operands.len(),
        targets_sum(targets@, targets@.len() as int) <= u64::MAX,
    ensures
        r == calibration_sum(targets@, operands@, operands@.len() as int, concat_ops),
{
    let mut total: u64 = 0;
    let mut i: usize = 0;
    while i < operands.len()
        invariant
            i <= operands.len(),
            targets.len() == operands.len(),
            targets_sum(targets@, targets@.len() as int) <= u64::MAX,
            total == calibration_sum(targets@, operands@, i as int, concat_ops),
        decreases operands.len() - i,
    {
        proof {
            lemma_calibration_bound(targets@, operands@, i + 1, concat_ops);
            lemma_targets_sum_mono(targets@, i + 1, targets@.len() as int);
        }
        let ops = &operands[i];
        let target = targets[i];
        if ops.len() > 0 && permute_recursive(target, ops, 1, ops[0], concat_ops) == target {
            total = total + target;
        } else {
            assert(target == 0 || !(ops@.len() > 0 && solvable(target as int, ops@, 1, ops@[0] as int, concat_ops)));
        }
        i = i + 1;
    }
    total
}

} // verus!
