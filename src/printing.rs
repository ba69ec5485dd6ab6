use vstd::prelude::*;

verus! {

/// Every rule `(d, page)` whose `d` is in `update` has `d` in `printed`.
pub open spec fn deps_met(rules: Seq<(i32, i32)>, page: i32, printed: Seq<i32>, update: Seq<i32>) -> bool {
    forall|k: int|
        0 <= k < rules.len() && (#[trigger] rules[k]).1 == page && update.contains(rules[k].0) ==> printed.contains(
            rules[k].0,
        )
}

/// Each page of `update` comes after every page of the update that a rule
/// puts before it.
pub open spec fn correctly_ordered(rules: Seq<(i32, i32)>, update: Seq<i32>) -> bool {
    forall|i: int| 0 <= i < update.len() ==> #[trigger] deps_met(rules, update[i], update.subrange(0, i + 1), update)
}

/// Whether every rule `(d, page)` whose `d` is still in `update` has `d` among
/// the pages already `printed`.
pub fn deps_are_satisfied(rules: &Vec<(i32, i32)>, page: i32, printed: &Vec<i32>, update: &Vec<i32>) -> (r: bool)
    ensures
        r == deps_met(rules@, page, printed@, update@),
{
    let mut k: usize = 0;
    while k < rules.len()
        invariant
            k <= rules.len(),
            forall|j: int|
                0 <= j < k && (#[trigger] rules@[j]).1 == page && update@.contains(rules@[j].0) ==> printed@.contains(
                    rules@[j].0,
                ),
        decreases rules.len() - k,
    {
        let (dep, p) = rules[k];
        if p == page && contains(update, dep) && !contains(printed, dep) {
            return false;
        }
        k = k + 1;
    }
    true
}

fn contains(v: &Vec<i32>, x: i32) -> (r: bool)
    ensures
        r == v@.contains(x),
{
    let mut i: usize = 0;
    while i < v.len()
        invariant
            i <= v.len(),
            forall|j: int| 0 <= j < i ==> v@[j] != x,
        decreases v.len() - i,
    {
        if v[i] == x {
            assert(v@[i as int] == x);
            return true;
        }
        i = i + 1;
    }
    false
}

/// Whether `update` follows every rule.
pub fn is_correctly_ordered(rules: &Vec<(i32, i32)>, update: &Vec<i32>) -> (r: bool)
    ensures
        r == correctly_ordered(rules@, update@),
{
    let mut printed: Vec<i32> = Vec::new();
    let mut i: usize = 0;
    while i < update.len()
        invariant
            i <= update.len(),
            printed@ == update@.subrange(0, i as int),
            forall|j: int| 0 <= j < i ==> #[trigger] deps_met(rules@, update@[j], update@.subrange(0, j + 1), update@),
        decreases update.len() - i,
    {
        printed.push(update[i]);
        assert(printed@ =~= update@.subrange(0, i + 1));
        if !deps_are_satisfied(rules, update[i], &printed, update) {
            return false;
        }
        i = i + 1;
    }
    true
}

/// The page in the middle of `update`.
pub open spec fn middle(update: Seq<i32>) -> int {
    update[update.len() as int / 2] as int
}

/// The sum of the middle pages of those of the first `n` updates whose order
/// is correct (or, with `correct` false, incorrect).
pub open spec fn middle_sum(rules: Seq<(i32, i32)>, updates: Seq<Vec<i32>>, n: int, correct: bool) -> int
    decreases n,
{
    if n <= 0 {
        0
    } else {
        middle_sum(rules, updates, n - 1, correct) + if correctly_ordered(rules, updates[n - 1]@) == correct {
            middle(updates[n - 1]@)
        } else {
            0
        }
    }
}

proof fn lemma_middle_sum_bound(rules: Seq<(i32, i32)>, updates: Seq<Vec<i32>>, n: int, correct: bool)
    requires
        0 <= n <= updates.len(),
        forall|i: int| 0 <= i < updates.len() ==> (#[trigger] updates[i])@.len() > 0,
    ensures
        -n * 0x8000_0000 <= middle_sum(rules, updates, n, correct) <= n * 0x8000_0000,
    decreases n,
{
    if n > 0 {
        lemma_middle_sum_bound(rules, updates, n - 1, correct);
    }
}

/// The sum of the middle pages of the correctly ordered updates.
pub fn sum_correct_middles(rules: &Vec<(i32, i32)>, updates: &Vec<Vec<i32>>) -> (r: i64)
    requires
        updates.len() <= u32::MAX,
        forall|i: int| 0 <= i < updates.len() ==> (#[trigger] updates@[i])@.len() > 0,
    ensures
        r == middle_sum(rules@, updates@, updates@.len() as int, true),
{
    let mut total: i64 = 0;
    let mut i: usize = 0;
    while i < updates.len()
        invariant
            i <= updates.len(),
            updates.len() <= u32::MAX,
            forall|j: int| 0 <= j < updates.len() ==> (#[trigger] updates@[j])@.len() > 0,
            total == middle_sum(rules@, updates@, i as int, true),
        decreases updates.len() - i,
    {
        proof {
            lemma_middle_sum_bound(rules@, updates@, i + 1, true);
        }
        let u = &updates[i];
        if is_correctly_ordered(rules, u) {
            total = total + u[u.len() / 2] as i64;
        }
        i = i + 1;
    }
    total
}


/// The first position from `k` on of a page of `remaining` whose rules are met
/// given the pages already `printed`.
pub open spec fn first_ready(rules: Seq<(i32, i32)>, remaining: Seq<i32>, printed: Seq<i32>, k: int) -> Option<int>
    decreases remaining.len() - k,
{
    if k < 0 || k >= remaining.len() {
        None
    } else if deps_met(rules, remaining[k], printed, remaining) {
        Some(k)
    } else {
        first_ready(rules, remaining, printed, k + 1)
    }
}

/// The order in which the pages of `remaining` are placed after `placed`:
/// each time the first page whose rules are met is moved over; `None` if at
/// some point no remaining page can be placed.
pub open spec fn reordered(rules: Seq<(i32, i32)>, remaining: Seq<i32>, placed: Seq<i32>) -> Option<Seq<i32>>
    decreases remaining.len(),
{
    if remaining.len() == 0 {
        Some(placed)
    } else {
        match first_ready(rules, remaining, placed, 0) {
            None => None,
            Some(i) => if 0 <= i < remaining.len() {
                reordered(rules, remaining.remove(i), placed.push(remaining[i]))
            } else {
                None
            },
        }
    }
}

proof fn lemma_first_ready_range(rules: Seq<(i32, i32)>, remaining: Seq<i32>, printed: Seq<i32>, k: int)
    ensures
        first_ready(rules, remaining, printed, k) matches Some(i) ==> 0 <= k <= i < remaining.len(),
    decreases remaining.len() - k,
{
    if 0 <= k < remaining.len() && !deps_met(rules, remaining[k], printed, remaining) {
        lemma_first_ready_range(rules, remaining, printed, k + 1);
    }
}

/// Moves the first page of `update` whose rules are met, given the pages
/// already `printed`, to the end of `new_update` and of `printed`; returns
/// whether there was one.
pub fn fill_in_next(
    rules: &Vec<(i32, i32)>,
    update: &mut Vec<i32>,
    new_update: &mut Vec<i32>,
    printed: &mut Vec<i32>,
) -> (moved: bool)
    requires
        old(printed)@ == old(new_update)@,
    ensures
        moved == (first_ready(rules@, old(update)@, old(printed)@, 0) is Some),
        first_ready(rules@, old(update)@, old(printed)@, 0) matches Some(i) ==> {
            &&& final(update)@ == old(update)@.remove(i)
            &&& final(new_update)@ == old(new_update)@.push(old(update)@[i])
        },
        !moved ==> final(update)@ == old(update)@ && final(new_update)@ == old(new_update)@,
        final(printed)@ == final(new_update)@,
{
    let mut i: usize = 0;
    while i < update.len()
        invariant
            update@ == old(update)@,
            new_update@ == old(new_update)@,
            printed@ == old(printed)@,
            old(printed)@ == old(new_update)@,
            i <= update.len(),
            first_ready(rules@, update@, printed@, 0) == first_ready(rules@, update@, printed@, i as int),
        decreases update.len() - i,
    {
        if deps_are_satisfied(rules, update[i], printed, update) {
            let page = update[i];
            new_update.push(page);
            printed.push(page);
            update.remove(i);
            return true;
        }
        i = i + 1;
    }
    false
}

/// The pages of `update` in the order the rules give them (see `reordered`);
/// `None` if at some point no page can be placed.
pub fn reorder(rules: &Vec<(i32, i32)>, update: &Vec<i32>) -> (r: Option<Vec<i32>>)
    ensures
        r matches Some(v) ==> reordered(rules@, update@, Seq::empty()) == Some(v@),
        r is None ==> reordered(rules@, update@, Seq::empty()) is None,
{
    let mut remaining = update.clone();
    assert(remaining@ =~= update@);
    let mut new_update: Vec<i32> = Vec::new();
    let mut printed: Vec<i32> = Vec::new();
    while remaining.len() > 0
        invariant
            printed@ == new_update@,
            reordered(rules@, update@, Seq::empty()) == reordered(rules@, remaining@, new_update@),
        decreases remaining.len(),
    {
        proof {
            lemma_first_ready_range(rules@, remaining@, printed@, 0);
        }
        if !fill_in_next(rules, &mut remaining, &mut new_update, &mut printed) {
            return None;
        }
    }
    Some(new_update)
}

/// The sum of the middle pages of the incorrectly ordered updates of the first
/// `n`, once reordered; `None` if one of them cannot be reordered.
pub open spec fn fixed_middle_sum(rules: Seq<(i32, i32)>, updates: Seq<Vec<i32>>, n: int) -> Option<int>
    decreases n,
{
    if n <= 0 {
        Some(0)
    } else {
        match fixed_middle_sum(rules, updates, n - 1) {
            None => None,
            Some(t) => if correctly_ordered(rules, updates[n - 1]@) {
                Some(t)
            } else {
                match reordered(rules, updates[n - 1]@, Seq::empty()) {
                    None => None,
                    Some(v) => Some(t + middle(v)),
                }
            },
        }
    }
}

proof fn lemma_reordered_len(rules: Seq<(i32, i32)>, remaining: Seq<i32>, placed: Seq<i32>)
    ensures
        reordered(rules, remaining, placed) matches Some(v) ==> v.len() == remaining.len() + placed.len(),
    decreases remaining.len(),
{
    if remaining.len() > 0 {
        lemma_first_ready_range(rules, remaining, placed, 0);
        if let Some(i) = first_ready(rules, remaining, placed, 0) {
            lemma_reordered_len(rules, remaining.remove(i), placed.push(remaining[i]));
        }
    }
}

proof fn lemma_fixed_middle_sum_bound(rules: Seq<(i32, i32)>, updates: Seq<Vec<i32>>, n: int)
    requires
        0 <= n <= updates.len(),
    ensures
        fixed_middle_sum(rules, updates, n) matches Some(t) ==> -n * 0x8000_0000 <= t <= n * 0x8000_0000,
    decreases n,
{
    if n > 0 {
        lemma_fixed_middle_sum_bound(rules, updates, n - 1);
    }
}

/// The sum of the middle pages of the incorrectly ordered updates once each
/// is put in order; `None` if one of them cannot be.
pub fn sum_fixed_middles(rules: &Vec<(i32, i32)>, updates: &Vec<Vec<i32>>) -> (r: Option<i64>)
    requires
        updates.len() <= u32::MAX,
    ensures
        r matches Some(t) ==> fixed_middle_sum(rules@, updates@, updates@.len() as int) == Some(t as int),
        r is None ==> fixed_middle_sum(rules@, updates@, updates@.len() as int) is None,
{
    let mut total: i64 = 0;
    let mut i: usize = 0;
    while i < updates.len()
        invariant
            i <= updates.len(),
            updates.len() <= u32::MAX,
            fixed_middle_sum(rules@, updates@, i as int) == Some(total as int),
        decreases updates.len() - i,
    {
        proof {
            lemma_fixed_middle_sum_bound(rules@, updates@, i + 1);
        }
        let u = &updates[i];
        if !is_correctly_ordered(rules, u) {
            match reorder(rules, u) {
                None => {
                    proof {
                        lemma_fixed_none(rules@, updates@, i as int + 1, updates@.len() as int);
                    }
                    return None;
                },
                Some(v) => {
                    proof {
                        lemma_reordered_len(rules@, u@, Seq::empty());
                    }
                    if v.len() == 0 {
                        assert(u@.len() == 0);
                        assert(correctly_ordered(rules@, u@));
                        assert(false);
                    }
                    total = total + v[v.len() / 2] as i64;
                },
            }
        }
        i = i + 1;
    }
    Some(total)
}

proof fn lemma_fixed_none(rules: Seq<(i32, i32)>, updates: Seq<Vec<i32>>, m: int, n: int)
    requires
        1 <= m <= n,
        fixed_middle_sum(rules, updates, m) is None,
    ensures
        fixed_middle_sum(rules, updates, n) is None,
    decreases n - m,
{
    if m < n {
        lemma_fixed_none(rules, updates, m, n - 1);
    }
}

} // verus!
