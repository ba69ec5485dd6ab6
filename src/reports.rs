use vstd::prelude::*;

verus! {

/// Each level is above the one before it by 1 to 3.
pub open spec fn steps_up(r: Seq<u8>) -> bool {
    forall|i: int| 1 <= i < r.len() ==> r[i - 1] < #[trigger] r[i] <= r[i - 1] + 3
}

/// Each level is below the one before it by 1 to 3.
pub open spec fn steps_down(r: Seq<u8>) -> bool {
    forall|i: int| 1 <= i < r.len() ==> #[trigger] r[i] < r[i - 1] <= r[i] + 3
}

/// A report is safe when its levels all rise, or all fall, by 1 to 3 at each step.
pub open spec fn is_safe(r: Seq<u8>) -> bool {
    r.len() <= 1 || steps_up(r) || steps_down(r)
}

/// A report is safe once at most one level is taken out of it.
pub open spec fn is_safe_dampened(r: Seq<u8>) -> bool {
    is_safe(r) || exists|i: int| 0 <= i < r.len() && #[trigger] is_safe(r.remove(i))
}

/// How many of the first `n` reports are safe (`dampened`: with one level
/// taken out where that helps).
pub open spec fn safe_count(rs: Seq<Vec<u8>>, n: int, dampened: bool) -> int
    decreases n,
{
    if n <= 0 {
        0
    } else {
        safe_count(rs, n - 1, dampened) + if (if dampened { is_safe_dampened(rs[n - 1]@) } else { is_safe(rs[n - 1]@) }) {
            1int
        } else {
            0int
        }
    }
}

pub fn is_safe_as_is(report: &[u8]) -> (r: bool)
    ensures
        r == is_safe(report@),
{
    let mut increasing = false;
    let mut i: usize = 1;
    while i < report.len()
        invariant
            1 <= i,
            i <= report.len() || report.len() == 0,
            i > 1 && report.len() >= 2 ==> increasing == (report@[1] > report@[0]),
            i == 1 ==> !increasing,
            increasing ==> forall|j: int| 1 <= j < i && j < report.len() ==> report@[j - 1] < #[trigger] report@[j] <= report@[j - 1] + 3,
            !increasing ==> forall|j: int| 1 <= j < i && j < report.len() ==> #[trigger] report@[j] < report@[j - 1] <= report@[j] + 3,
        decreases report.len() - i,
    {
        if i == 1 && report[i] > report[i - 1] {
            increasing = true;
        }
        let increasing_and_safe = increasing && report[i] > report[i - 1] && report[i] - report[i - 1] <= 3;
        let decreasing_and_safe = !increasing && report[i] < report[i - 1] && report[i - 1] - report[i] <= 3
            && report[i] != report[i - 1];
        if !increasing_and_safe && !decreasing_and_safe {
            assert(!steps_up(report@) && !steps_down(report@)) by {
                if increasing {
                    assert(report@[1] > report@[0]);
                } else {
                    assert(report@[1] <= report@[0] || i > 1);
                }
            }
            return false;
        }
        i = i + 1;
    }
    true
}

/// `report` with the level at `skip` taken out.
fn without(report: &[u8], skip: usize) -> (r: Vec<u8>)
    requires
        skip < report.len(),
    ensures
        r@ == report@.remove(skip as int),
{
    let mut r: Vec<u8> = Vec::new();
    let mut i: usize = 0;
    while i < report.len()
        invariant
            skip < report.len(),
            i <= report.len(),
            r@ == (if i <= skip { report@.subrange(0, i as int) } else { report@.remove(skip as int).subrange(0, i - 1) }),
        decreases report.len() - i,
    {
        if i != skip {
            r.push(report[i]);
        }
        i = i + 1;
        assert(r@ =~= (if i <= skip { report@.subrange(0, i as int) } else { report@.remove(skip as int).subrange(0, i - 1) }));
    }
    assert(r@ =~= report@.remove(skip as int));
    r
}

pub fn is_safe_part2(report: &[u8]) -> (r: bool)
    ensures
        r == is_safe_dampened(report@),
{
    if is_safe_as_is(report) {
        return true;
    }
    let mut i: usize = 0;
    while i < report.len()
        invariant
            i <= report.len(),
            !is_safe(report@),
            forall|j: int| 0 <= j < i ==> !#[trigger] is_safe(report@.remove(j)),
        decreases report.len() - i,
    {
        let shorter = without(report, i);
        if is_safe_as_is(shorter.as_slice()) {
            return true;
        }
        i = i + 1;
    }
    false
}

/// How many of `reports` are safe; with `dampened`, a report also counts when
/// taking out one level makes it safe.
pub fn count_safe(reports: &Vec<Vec<u8>>, dampened: bool) -> (r: usize)
    ensures
        r == safe_count(reports@, reports@.len() as int, dampened),
{
    let mut total: usize = 0;
    let mut i: usize = 0;
    while i < reports.len()
        invariant
            i <= reports.len(),
            total == safe_count(reports@, i as int, dampened),
            total <= i,
        decreases reports.len() - i,
    {
        let safe = if dampened {
            is_safe_part2(reports[i].as_slice())
        } else {
            is_safe_as_is(reports[i].as_slice())
        };
        if safe {
            total = total + 1;
        }
        i = i + 1;
    }
    total
}

} // verus!
