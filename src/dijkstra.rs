use vstd::prelude::*;

verus! {

/// A graph whose points are the indices `0..dists().len()` of a distance store.
///
/// Implementors supply the four capabilities that single-source shortest-path
/// search needs: the edges that leave a point, whether a point can ever be
/// entered, and read and write access to the distance store.
pub trait Dijkstrable: Sized {
    /// The implementor's well-formedness.
    spec fn wf(&self) -> bool;

    /// The directed edges `(target, cost)` that leave `p`.
    spec fn edges(&self, p: int) -> Seq<(usize, u64)>;

    /// Whether `p` can never be entered.
    spec fn blocked(&self, p: int) -> bool;

    /// The distance store; `None` means "undiscovered".
    spec fn dists(&self) -> Seq<Option<u64>>;

    fn neighbours(&self, p: usize) -> (r: Vec<(usize, u64)>)
        requires
            self.wf(),
            p < self.dists().len(),
        ensures
            r@ == self.edges(p as int),
            forall|i: int| 0 <= i < r@.len() ==> (#[trigger] r@[i]).0 < self.dists().len(),
    ;

    fn is_impossible(&self, p: usize) -> (r: bool)
        requires
            self.wf(),
            p < self.dists().len(),
        ensures
            r == self.blocked(p as int),
    ;

    fn dist(&self, p: usize) -> (r: Option<u64>)
        requires
            self.wf(),
            p < self.dists().len(),
        ensures
            r == self.dists()[p as int],
    ;

    fn set_dist(&mut self, p: usize, d: Option<u64>)
        requires
            old(self).wf(),
            p < old(self).dists().len(),
        ensures
            final(self).wf(),
            final(self).dists() == old(self).dists().update(p as int, d),
            forall|q: int| #[trigger] final(self).edges(q) == old(self).edges(q),
            forall|q: int| #[trigger] final(self).blocked(q) == old(self).blocked(q),
    ;
}


/// `a` is "at most" `b`, reading `None` as infinity.
pub open spec fn le_dist(a: Option<u64>, b: Option<u64>) -> bool {
    match b {
        None => true,
        Some(y) => a is Some && a->0 <= y,
    }
}

/// One step into `b` along an edge `(b, c)` of `a`; `b` must be enterable.
pub open spec fn is_step<G: Dijkstrable>(g: &G, a: usize, b: usize, c: u64) -> bool {
    &&& !g.blocked(b as int)
    &&& g.edges(a as int).contains((b, c))
}

/// A walk: a sequence of `(point, cost of the edge into it)`; the cost of the
/// first entry is ignored.
pub open spec fn is_walk<G: Dijkstrable>(g: &G, w: Seq<(usize, u64)>) -> bool {
    forall|i: int| 1 <= i < w.len() ==> is_step(g, w[i - 1].0, #[trigger] w[i].0, w[i].1)
}

/// The sum of the edge costs of a walk.
pub open spec fn walk_cost(w: Seq<(usize, u64)>) -> int
    decreases w.len(),
{
    if w.len() <= 1 {
        0
    } else {
        walk_cost(w.drop_last()) + w.last().1
    }
}

/// `w` is a walk from `source` to `p` whose total, starting at `init`, is `d`.
pub open spec fn walk_from<G: Dijkstrable>(
    g: &G,
    source: usize,
    init: u64,
    p: usize,
    w: Seq<(usize, u64)>,
    d: int,
) -> bool {
    &&& w.len() > 0
    &&& w[0].0 == source
    &&& w.last().0 == p
    &&& is_walk(g, w)
    &&& d == init + walk_cost(w)
}

/// Every discovered distance in `ds` is the total of some walk of `g` from `source`.
pub open spec fn sound_in<G: Dijkstrable>(
    g: &G,
    ds: Seq<Option<u64>>,
    source: usize,
    init: u64,
) -> bool {
    forall|p: int|
        0 <= p < ds.len() && (#[trigger] ds[p]) is Some ==> exists|w: Seq<(usize, u64)>|
            #[trigger] walk_from(g, source, init, p as usize, w, ds[p]->0 as int)
}

/// Every discovered distance is the total of some walk from `source`.
pub open spec fn sound<G: Dijkstrable>(g: &G, source: usize, init: u64) -> bool {
    sound_in(g, g.dists(), source, init)
}

/// No edge of `g` out of `p` would improve its target in `ds`: every enterable
/// target has a distance at most `ds[p] + cost` (where that sum fits in a `u64`).
pub open spec fn relaxed_in<G: Dijkstrable>(g: &G, ds: Seq<Option<u64>>, p: int) -> bool {
    ds[p] is Some ==> forall|i: int|
        0 <= i < g.edges(p).len() && !g.blocked(#[trigger] g.edges(p)[i].0 as int) && ds[p]->0
            + g.edges(p)[i].1 <= u64::MAX ==> le_dist(
            ds[g.edges(p)[i].0 as int],
            Some((ds[p]->0 + g.edges(p)[i].1) as u64),
        )
}

/// No edge out of `p` would improve its target.
pub open spec fn relaxed_at<G: Dijkstrable>(g: &G, p: int) -> bool {
    relaxed_in(g, g.dists(), p)
}

/// Every edge leads to a point of the store.
pub open spec fn edges_in_range<G: Dijkstrable>(g: &G) -> bool {
    forall|p: int, i: int|
        0 <= p < g.dists().len() && 0 <= i < g.edges(p).len() ==> (#[trigger] g.edges(p)[i]).0 < g.dists().len()
}

/// A store that a search from `source` at `init` may start on: the source holds
/// `init`, every other known distance comes from a walk, and every point but
/// the source is relaxed (a store where only the source is set qualifies).
pub open spec fn ready<G: Dijkstrable>(g: &G, source: usize, init: u64) -> bool {
    &&& g.wf()
    &&& edges_in_range(g)
    &&& g.dists().len() <= usize::MAX
    &&& source < g.dists().len()
    &&& g.dists()[source as int] == Some(init)
    &&& sound(g, source, init)
    &&& forall|p: int| 0 <= p < g.dists().len() && p != source ==> #[trigger] relaxed_at(g, p)
}

/// A store on which the search from `source` at `init` has finished: ready, and
/// relaxed everywhere.
pub open spec fn settled<G: Dijkstrable>(g: &G, source: usize, init: u64) -> bool {
    &&& ready(g, source, init)
    &&& forall|p: int| 0 <= p < g.dists().len() ==> #[trigger] relaxed_at(g, p)
}

/// A distance as a number, with "undiscovered" above every `u64`.
pub open spec fn dist_value(d: Option<u64>) -> int {
    match d {
        None => u64::MAX + 1,
        Some(x) => x as int,
    }
}

/// The sum of `dist_value` over a store; it falls whenever a distance improves.
pub open spec fn potential(s: Seq<Option<u64>>) -> int
    decreases s.len(),
{
    if s.len() == 0 {
        0
    } else {
        potential(s.drop_last()) + dist_value(s.last())
    }
}

proof fn lemma_potential_nonneg(s: Seq<Option<u64>>)
    ensures
        potential(s) >= 0,
    decreases s.len(),
{
    if s.len() > 0 {
        lemma_potential_nonneg(s.drop_last());
    }
}

proof fn lemma_potential_update(s: Seq<Option<u64>>, i: int, d: Option<u64>)
    requires
        0 <= i < s.len(),
    ensures
        potential(s.update(i, d)) == potential(s) - dist_value(s[i]) + dist_value(d),
    decreases s.len(),
{
    let t = s.update(i, d);
    if i == s.len() - 1 {
        assert(t.drop_last() =~= s.drop_last());
    } else {
        assert(t.drop_last() =~= s.drop_last().update(i, d));
        lemma_potential_update(s.drop_last(), i, d);
    }
}

proof fn lemma_walk_extend<G: Dijkstrable>(
    g: &G,
    source: usize,
    init: u64,
    p: usize,
    w: Seq<(usize, u64)>,
    d: int,
    q: usize,
    c: u64,
)
    requires
        walk_from(g, source, init, p, w, d),
        is_step(g, p, q, c),
    ensures
        walk_from(g, source, init, q, w.push((q, c)), d + c),
{
    let w2 = w.push((q, c));
    assert(w2.drop_last() =~= w);
    assert forall|i: int| 1 <= i < w2.len() implies is_step(g, w2[i - 1].0, #[trigger] w2[i].0, w2[i].1) by {
        if i < w.len() {
            assert(w2[i - 1] == w[i - 1] && w2[i] == w[i]);
        }
    }
}

/// Removes and returns an entry of least distance.
fn pop_min(q: &mut Vec<(u64, usize)>) -> (r: (u64, usize))
    requires
        old(q).len() > 0,
    ensures
        exists|k: int|
            0 <= k < old(q)@.len() && old(q)@[k] == r && final(q)@ == old(q)@.remove(k),
        forall|i: int| 0 <= i < old(q)@.len() ==> r.0 <= (#[trigger] old(q)@[i]).0,
{
    let mut best: usize = 0;
    let mut i: usize = 1;
    while i < q.len()
        invariant
            q@ == old(q)@,
            0 <= best < q.len(),
            1 <= i <= q.len(),
            forall|j: int| 0 <= j < i ==> q@[best as int].0 <= (#[trigger] q@[j]).0,
        decreases q.len() - i,
    {
        if q[i].0 < q[best].0 {
            best = i;
        }
        i = i + 1;
    }
    q.remove(best)
}


/// A queue entry `(d, p)`: `p` is a point, `d` the total of a walk from
/// `source` to `p`, and the store already holds `d` or better for `p`.
pub open spec fn entry_ok<G: Dijkstrable>(
    g: &G,
    ds: Seq<Option<u64>>,
    source: usize,
    init: u64,
    e: (u64, usize),
) -> bool {
    &&& e.1 < ds.len()
    &&& e.0 >= init
    &&& le_dist(ds[e.1 as int], Some(e.0))
    &&& exists|w: Seq<(usize, u64)>| #[trigger] walk_from(g, source, init, e.1, w, e.0 as int)
}

proof fn lemma_walk_frame<G: Dijkstrable>(g1: &G, g2: &G, w: Seq<(usize, u64)>)
    requires
        forall|p: int| #[trigger] g2.edges(p) == g1.edges(p),
        forall|p: int| #[trigger] g2.blocked(p) == g1.blocked(p),
        is_walk(g1, w),
    ensures
        is_walk(g2, w),
{
    assert forall|i: int| 1 <= i < w.len() implies is_step(g2, w[i - 1].0, #[trigger] w[i].0, w[i].1) by {
        assert(is_step(g1, w[i - 1].0, w[i].0, w[i].1));
        assert(g2.edges(w[i - 1].0 as int) == g1.edges(w[i - 1].0 as int));
        assert(g2.blocked(w[i].0 as int) == g1.blocked(w[i].0 as int));
    }
}

proof fn lemma_sound_frame<G: Dijkstrable>(
    g1: &G,
    g2: &G,
    ds: Seq<Option<u64>>,
    source: usize,
    init: u64,
)
    requires
        forall|p: int| #[trigger] g2.edges(p) == g1.edges(p),
        forall|p: int| #[trigger] g2.blocked(p) == g1.blocked(p),
        sound_in(g1, ds, source, init),
    ensures
        sound_in(g2, ds, source, init),
{
    assert forall|p: int| 0 <= p < ds.len() && (#[trigger] ds[p]) is Some implies exists|w: Seq<(usize, u64)>|
        #[trigger] walk_from(g2, source, init, p as usize, w, ds[p]->0 as int) by {
        let w = choose|w: Seq<(usize, u64)>| #[trigger] walk_from(g1, source, init, p as usize, w, ds[p]->0 as int);
        lemma_walk_frame(g1, g2, w);
        assert(walk_from(g2, source, init, p as usize, w, ds[p]->0 as int));
    }
}

proof fn lemma_relaxed_lower<G: Dijkstrable>(
    g: &G,
    d1: Seq<Option<u64>>,
    d2: Seq<Option<u64>>,
    p: int,
)
    requires
        d1.len() == d2.len(),
        0 <= p < d1.len(),
        forall|x: int| 0 <= x < d1.len() ==> le_dist(#[trigger] d2[x], d1[x]),
        forall|i: int| 0 <= i < g.edges(p).len() ==> (#[trigger] g.edges(p)[i]).0 < d1.len(),
        d2[p] == d1[p],
        relaxed_in(g, d1, p),
    ensures
        relaxed_in(g, d2, p),
{
    if d2[p] is Some {
        assert forall|i: int|
            0 <= i < g.edges(p).len() && !g.blocked(#[trigger] g.edges(p)[i].0 as int) && d2[p]->0
                + g.edges(p)[i].1 <= u64::MAX implies le_dist(
            d2[g.edges(p)[i].0 as int],
            Some((d2[p]->0 + g.edges(p)[i].1) as u64),
        ) by {
            let t = g.edges(p)[i].0 as int;
            assert(le_dist(d2[t], d1[t]));
        }
    }
}

proof fn lemma_remove_contains<A>(s: Seq<A>, k: int, x: A)
    requires
        0 <= k < s.len(),
        s.contains(x),
        s[k] != x,
    ensures
        s.remove(k).contains(x),
{
    let j = choose|j: int| 0 <= j < s.len() && s[j] == x;
    if j < k {
        assert(s.remove(k)[j] == x);
    } else {
        assert(s.remove(k)[j - 1] == x);
    }
}

/// Lowers the distance of `t` to `cand` if that improves it, and says whether
/// it did. A value is written only when it is below the stored one (an
/// undiscovered point counts as infinitely far).
pub fn relax<G: Dijkstrable>(g: &mut G, t: usize, cand: u64) -> (changed: bool)
    requires
        old(g).wf(),
        t < old(g).dists().len(),
    ensures
        final(g).wf(),
        changed == (cand < dist_value(old(g).dists()[t as int])),
        changed ==> final(g).dists() == old(g).dists().update(t as int, Some(cand)),
        !changed ==> final(g).dists() == old(g).dists(),
        forall|q: int| #[trigger] final(g).edges(q) == old(g).edges(q),
        forall|q: int| #[trigger] final(g).blocked(q) == old(g).blocked(q),
{
    let better = match g.dist(t) {
        None => true,
        Some(x) => cand < x,
    };
    if better {
        g.set_dist(t, Some(cand));
    }
    better
}


/// Single-source shortest-path search from `source`, whose distance the caller
/// has set to `init`.
///
/// Pops entries of least distance from a min-priority queue and relaxes the
/// edges of each; a point is pushed again each time its distance improves, and
/// a popped entry that no longer matches the stored distance is skipped. A sum
/// that would overflow a `u64` is treated as infinite. The search always runs
/// until the queue is empty.
///
/// Afterwards every known distance is the total of a walk from the source and
/// no edge can improve any distance, so each distance is the least total over
/// all walks (see `lemma_shortest`); distances only ever fall, only enterable
/// points change, and a store that was already settled is left as it was.
pub fn dijkstra<G: Dijkstrable>(g: &mut G, source: usize, init: u64)
    requires
        ready(old(g), source, init),
    ensures
        settled(final(g), source, init),
        final(g).dists().len() == old(g).dists().len(),
        forall|p: int| #[trigger] final(g).edges(p) == old(g).edges(p),
        forall|p: int| #[trigger] final(g).blocked(p) == old(g).blocked(p),
        forall|p: int|
            0 <= p < old(g).dists().len() ==> le_dist(#[trigger] final(g).dists()[p], old(g).dists()[p]),
        forall|p: int|
            0 <= p < old(g).dists().len() && #[trigger] final(g).dists()[p] != old(g).dists()[p]
                ==> !old(g).blocked(p),
        settled(old(g), source, init) ==> final(g).dists() == old(g).dists(),
{
    let ghost g0 = *old(g);
    let ghost n = g0.dists().len();
    let ghost was_settled = settled(old(g), source, init);
    let mut q: Vec<(u64, usize)> = Vec::new();
    q.push((init, source));
    proof {
        let w = seq![(source, 0u64)];
        assert(walk_from(&g0, source, init, source, w, init as int));
        assert(q@[0] == (init, source));
        assert forall|p: int| 0 <= p < n && g0.dists()[p] is Some implies relaxed_in(&g0, g0.dists(), p)
            || q@.contains((g0.dists()[p]->0, p as usize)) by {
            if p == source {
                assert(q@[0] == (g0.dists()[p]->0, p as usize));
            } else {
                assert(relaxed_at(&g0, p));
            }
        }
    }
    while q.len() > 0
        invariant
            g.wf(),
            g.dists().len() == n,
            forall|p: int| #[trigger] g.edges(p) == g0.edges(p),
            forall|p: int| #[trigger] g.blocked(p) == g0.blocked(p),
            g0.dists() == old(g).dists(),
            forall|p: int| #[trigger] g0.edges(p) == old(g).edges(p),
            forall|p: int| #[trigger] g0.blocked(p) == old(g).blocked(p),
            was_settled == settled(old(g), source, init),
            g0.wf(),
            g0.dists().len() == n,
            n <= usize::MAX,
            edges_in_range(&g0),
            source < n,
            g.dists()[source as int] == Some(init),
            sound_in(&g0, g.dists(), source, init),
            forall|j: int| 0 <= j < q@.len() ==> entry_ok(&g0, g.dists(), source, init, #[trigger] q@[j]),
            forall|p: int|
                0 <= p < n && (#[trigger] g.dists()[p]) is Some ==> relaxed_in(&g0, g.dists(), p)
                    || q@.contains((g.dists()[p]->0, p as usize)),
            forall|p: int| 0 <= p < n ==> le_dist(#[trigger] g.dists()[p], g0.dists()[p]),
            forall|p: int| 0 <= p < n && #[trigger] g.dists()[p] != g0.dists()[p] ==> !g0.blocked(p),
            was_settled ==> g.dists() == g0.dists(),
        decreases potential(g.dists()), q.len(),
    {
        proof {
            lemma_potential_nonneg(g.dists());
        }
        let ghost q_before = q@;
        let ghost pot0 = potential(g.dists());
        let (d, p) = pop_min(&mut q);
        let ghost k = choose|k: int| 0 <= k < q_before.len() && q_before[k] == (d, p) && q@ == q_before.remove(k);
        assert(q_before[k] == (d, p));
        assert(entry_ok(&g0, g.dists(), source, init, q_before[k]));
        assert(q@.len() == q_before.len() - 1);
        let current = g.dist(p);
        if current != Some(d) {
            proof {
                assert forall|x: int|
                    0 <= x < n && (#[trigger] g.dists()[x]) is Some implies relaxed_in(&g0, g.dists(), x)
                        || q@.contains((g.dists()[x]->0, x as usize)) by {
                    if !relaxed_in(&g0, g.dists(), x) {
                        lemma_remove_contains(q_before, k, (g.dists()[x]->0, x as usize));
                    }
                }
                assert forall|j: int| 0 <= j < q@.len() implies entry_ok(&g0, g.dists(), source, init, #[trigger] q@[j]) by {
                    if j < k {
                        assert(q@[j] == q_before[j]);
                    } else {
                        assert(q@[j] == q_before[j + 1]);
                    }
                }
            }
        } else {
            proof {
                assert forall|j: int| 0 <= j < q@.len() implies entry_ok(&g0, g.dists(), source, init, #[trigger] q@[j]) by {
                    if j < k {
                        assert(q@[j] == q_before[j]);
                    } else {
                        assert(q@[j] == q_before[j + 1]);
                    }
                }
                assert forall|x: int|
                    0 <= x < n && (#[trigger] g.dists()[x]) is Some && x != p implies relaxed_in(&g0, g.dists(), x)
                        || q@.contains((g.dists()[x]->0, x as usize)) by {
                    if !relaxed_in(&g0, g.dists(), x) {
                        lemma_remove_contains(q_before, k, (g.dists()[x]->0, x as usize));
                    }
                }
            }
            let ghost wp = choose|w: Seq<(usize, u64)>| #[trigger] walk_from(&g0, source, init, p, w, d as int);
            let ghost q_popped = q@;
            proof {
                if was_settled {
                    assert(relaxed_at(old(g), p as int));
                }
            }
            let ns = g.neighbours(p);
            let mut i: usize = 0;
            while i < ns.len()
                invariant
                    g.wf(),
                    g.dists().len() == n,
                    forall|x: int| #[trigger] g.edges(x) == g0.edges(x),
                    forall|x: int| #[trigger] g.blocked(x) == g0.blocked(x),
                    g0.wf(),
                    g0.dists().len() == n,
                    n <= usize::MAX,
                    edges_in_range(&g0),
                    source < n,
                    p < n,
                    d >= init,
                    ns@ == g0.edges(p as int),
                    forall|j: int| 0 <= j < ns@.len() ==> (#[trigger] ns@[j]).0 < n,
                    walk_from(&g0, source, init, p, wp, d as int),
                    g.dists()[p as int] == Some(d),
                    g.dists()[source as int] == Some(init),
                    sound_in(&g0, g.dists(), source, init),
                    forall|j: int| 0 <= j < q@.len() ==> entry_ok(&g0, g.dists(), source, init, #[trigger] q@[j]),
                    forall|x: int|
                        0 <= x < n && (#[trigger] g.dists()[x]) is Some && x != p ==> relaxed_in(&g0, g.dists(), x)
                            || q@.contains((g.dists()[x]->0, x as usize)),
                    forall|j: int|
                        0 <= j < i && !g0.blocked((#[trigger] ns@[j]).0 as int) && d + ns@[j].1 <= u64::MAX
                            ==> le_dist(g.dists()[ns@[j].0 as int], Some((d + ns@[j].1) as u64)),
                    forall|x: int| 0 <= x < n ==> le_dist(#[trigger] g.dists()[x], g0.dists()[x]),
                    forall|x: int| 0 <= x < n && #[trigger] g.dists()[x] != g0.dists()[x] ==> !g0.blocked(x),
                    was_settled ==> g.dists() == g0.dists(),
                    was_settled ==> relaxed_in(&g0, g0.dists(), p as int),
                    potential(g.dists()) <= pot0,
                    potential(g.dists()) == pot0 ==> q@ == q_popped,
                    i <= ns.len(),
                decreases ns.len() - i,
            {
                let (t, c) = ns[i];
                if !g.is_impossible(t) {
                    if let Some(cand) = d.checked_add(c) {
                        let ghost ds_before = g.dists();
                        let ghost q_mid = q@;
                        proof {
                            assert(ns@[i as int] == (t, c));
                            assert(g0.edges(p as int)[i as int] == (t, c));
                            if was_settled {
                                assert(le_dist(ds_before[t as int], Some(cand)));
                            }
                        }
                        let changed = relax(g, t, cand);
                        if changed {
                            q.push((cand, t));
                            proof {
                                lemma_potential_update(ds_before, t as int, Some(cand));
                                assert(g0.edges(p as int).contains((t, c)));
                                lemma_walk_extend(&g0, source, init, p, wp, d as int, t, c);
                                let ds = g.dists();
                                assert forall|x: int| 0 <= x < n && (#[trigger] ds[x]) is Some implies exists|w: Seq<(usize, u64)>|
                                    #[trigger] walk_from(&g0, source, init, x as usize, w, ds[x]->0 as int) by {
                                    if x == t {
                                        assert(walk_from(&g0, source, init, t, wp.push((t, c)), cand as int));
                                    } else {
                                        assert(ds[x] == ds_before[x]);
                                    }
                                }
                                assert forall|x: int| 0 <= x < n implies le_dist(#[trigger] ds[x], ds_before[x]) by {
                                    if x == t {
                                    } else {
                                        assert(ds[x] == ds_before[x]);
                                    }
                                }
                                assert(q@[q@.len() - 1] == (cand, t));
                                assert forall|j: int| 0 <= j < q@.len() implies entry_ok(&g0, ds, source, init, #[trigger] q@[j]) by {
                                    if j < q_mid.len() {
                                        assert(q@[j] == q_mid[j]);
                                        assert(entry_ok(&g0, ds_before, source, init, q_mid[j]));
                                        assert(le_dist(ds[q_mid[j].1 as int], ds_before[q_mid[j].1 as int]));
                                    } else {
                                        assert(walk_from(&g0, source, init, t, wp.push((t, c)), cand as int));
                                    }
                                }
                                assert forall|x: int|
                                    0 <= x < n && (#[trigger] ds[x]) is Some && x != p implies relaxed_in(&g0, ds, x)
                                        || q@.contains((ds[x]->0, x as usize)) by {
                                    if x == t {
                                        assert(q@[q@.len() - 1] == (ds[x]->0, x as usize));
                                    } else if relaxed_in(&g0, ds_before, x) {
                                        lemma_relaxed_lower(&g0, ds_before, ds, x);
                                    } else {
                                        let jj = choose|jj: int| 0 <= jj < q_mid.len() && q_mid[jj] == (ds_before[x]->0, x as usize);
                                        assert(q@[jj] == (ds[x]->0, x as usize));
                                    }
                                }
                                assert forall|j: int|
                                    0 <= j <= i && !g0.blocked((#[trigger] ns@[j]).0 as int) && d + ns@[j].1 <= u64::MAX
                                        implies le_dist(ds[ns@[j].0 as int], Some((d + ns@[j].1) as u64)) by {
                                    if j < i {
                                        let y = ns@[j].0 as int;
                                        if y != t {
                                            assert(ds[y] == ds_before[y]);
                                        }
                                    }
                                }
                            }
                        }
                    }
                }
                i = i + 1;
            }
            proof {
                assert(relaxed_in(&g0, g.dists(), p as int));
                assert(q_popped.len() == q_before.len() - 1);
            }
        }
        assert(potential(g.dists()) == pot0 ==> q@.len() == q_before.len() - 1);
        proof {
            lemma_potential_nonneg(g.dists());
        }
        assert(potential(g.dists()) < pot0 || (potential(g.dists()) == pot0 && q@.len() < q_before.len()));
    }
    proof {
        lemma_sound_frame(&g0, &*g, g.dists(), source, init);
        assert forall|x: int| 0 <= x < n implies #[trigger] relaxed_at(&*g, x) by {
            if g.dists()[x] is Some {
                assert(relaxed_in(&g0, g.dists(), x));
            }
        }
    }
}


proof fn lemma_walk_cost_nonneg(w: Seq<(usize, u64)>)
    ensures
        walk_cost(w) >= 0,
    decreases w.len(),
{
    if w.len() > 1 {
        lemma_walk_cost_nonneg(w.drop_last());
    }
}

/// On a settled store, the distance of a point is at most the total of every
/// walk from the source to it (whose total fits in a `u64`), and it is itself
/// the total of such a walk: it is the least total over all walks.
pub proof fn lemma_shortest<G: Dijkstrable>(
    g: &G,
    source: usize,
    init: u64,
    p: usize,
    w: Seq<(usize, u64)>,
)
    requires
        settled(g, source, init),
        walk_from(g, source, init, p, w, init + walk_cost(w)),
        init + walk_cost(w) <= u64::MAX,
    ensures
        p < g.dists().len(),
        g.dists()[p as int] is Some,
        g.dists()[p as int]->0 <= init + walk_cost(w),
        exists|v: Seq<(usize, u64)>|
            #[trigger] walk_from(g, source, init, p, v, g.dists()[p as int]->0 as int),
    decreases w.len(),
{
    if w.len() > 1 {
        let w1 = w.drop_last();
        let p1 = w1.last().0;
        let e = w.last().1;
        assert(is_step(g, w[w.len() - 2].0, w[w.len() - 1].0, w[w.len() - 1].1));
        assert forall|i: int| 1 <= i < w1.len() implies is_step(g, w1[i - 1].0, #[trigger] w1[i].0, w1[i].1) by {
            assert(w1[i - 1] == w[i - 1] && w1[i] == w[i]);
        }
        lemma_walk_cost_nonneg(w1);
        lemma_shortest(g, source, init, p1, w1);
        let i = choose|i: int| 0 <= i < g.edges(p1 as int).len() && g.edges(p1 as int)[i] == (p, e);
        assert(relaxed_at(g, p1 as int));
        assert(g.edges(p1 as int)[i].0 < g.dists().len());
    }
    assert(g.dists()[p as int] is Some);
    assert(sound(g, source, init));
}

/// On a sound store, a point that no walk from the source reaches stays
/// undiscovered.
pub proof fn lemma_unreachable<G: Dijkstrable>(g: &G, source: usize, init: u64, p: usize)
    requires
        sound(g, source, init),
        p < g.dists().len(),
        forall|w: Seq<(usize, u64)>, d: int| !#[trigger] walk_from(g, source, init, p, w, d),
    ensures
        g.dists()[p as int] is None,
{
    if g.dists()[p as int] is Some {
        let w = choose|w: Seq<(usize, u64)>|
            #[trigger] walk_from(g, source, init, p, w, g.dists()[p as int]->0 as int);
        assert(walk_from(g, source, init, p, w, g.dists()[p as int]->0 as int));
    }
}

/// A source whose every edge leads into a point that cannot be entered (or
/// that has no edges at all) leaves every other point undiscovered on a sound
/// store.
pub proof fn lemma_enclosed_source<G: Dijkstrable>(g: &G, source: usize, init: u64)
    requires
        sound(g, source, init),
        g.dists().len() <= usize::MAX,
        forall|i: int|
            0 <= i < g.edges(source as int).len() ==> g.blocked(#[trigger] g.edges(source as int)[i].0 as int),
    ensures
        forall|p: int| 0 <= p < g.dists().len() && p != source ==> #[trigger] g.dists()[p] is None,
{
    assert forall|p: int| 0 <= p < g.dists().len() && p != source implies #[trigger] g.dists()[p] is None by {
        if g.dists()[p] is Some {
            let w = choose|w: Seq<(usize, u64)>|
                #[trigger] walk_from(g, source, init, p as usize, w, g.dists()[p]->0 as int);
            assert(w.len() > 1);
            assert(is_step(g, w[0].0, w[1].0, w[1].1));
            let i = choose|i: int|
                0 <= i < g.edges(source as int).len() && g.edges(source as int)[i] == (w[1].0, w[1].1);
            assert(g.blocked(g.edges(source as int)[i].0 as int));
        }
    }
}

/// A store in which only the source is set, to `init`, is ready for a search.
pub proof fn lemma_fresh_ready<G: Dijkstrable>(g: &G, source: usize, init: u64)
    requires
        g.wf(),
        edges_in_range(g),
        g.dists().len() <= usize::MAX,
        source < g.dists().len(),
        g.dists()[source as int] == Some(init),
        forall|p: int| 0 <= p < g.dists().len() && p != source ==> #[trigger] g.dists()[p] is None,
    ensures
        ready(g, source, init),
{
    let w = seq![(source, 0u64)];
    assert(walk_from(g, source, init, source, w, init as int));
    assert forall|p: int| 0 <= p < g.dists().len() && (#[trigger] g.dists()[p]) is Some implies exists|v: Seq<(usize, u64)>|
        #[trigger] walk_from(g, source, init, p as usize, v, g.dists()[p]->0 as int) by {
        assert(p == source);
        assert(walk_from(g, source, init, p as usize, w, g.dists()[p]->0 as int));
    }
    assert forall|p: int| 0 <= p < g.dists().len() && p != source implies #[trigger] relaxed_at(g, p) by {
        assert(g.dists()[p] is None);
    }
}


/// Two settled stores over the same graph, source and initial distance agree
/// at every point: the result of a search does not depend on the store it
/// started from.
pub proof fn lemma_settled_unique<G: Dijkstrable>(g1: &G, g2: &G, source: usize, init: u64)
    requires
        settled(g1, source, init),
        settled(g2, source, init),
        g1.dists().len() == g2.dists().len(),
        forall|p: int| #[trigger] g2.edges(p) == g1.edges(p),
        forall|p: int| #[trigger] g2.blocked(p) == g1.blocked(p),
    ensures
        g1.dists() == g2.dists(),
{
    assert forall|p: int| 0 <= p < g1.dists().len() implies #[trigger] g1.dists()[p] == g2.dists()[p] by {
        lemma_settled_le(g1, g2, source, init, p);
        lemma_settled_le(g2, g1, source, init, p);
    }
    assert(g1.dists() =~= g2.dists());
}

proof fn lemma_settled_le<G: Dijkstrable>(g1: &G, g2: &G, source: usize, init: u64, p: int)
    requires
        settled(g1, source, init),
        settled(g2, source, init),
        g1.dists().len() == g2.dists().len(),
        forall|x: int| #[trigger] g2.edges(x) == g1.edges(x),
        forall|x: int| #[trigger] g2.blocked(x) == g1.blocked(x),
        0 <= p < g1.dists().len(),
    ensures
        le_dist(g2.dists()[p], g1.dists()[p]),
{
    if g1.dists()[p] is Some {
        let d = g1.dists()[p]->0;
        let w = choose|w: Seq<(usize, u64)>| #[trigger] walk_from(g1, source, init, p as usize, w, d as int);
        assert(walk_from(g1, source, init, p as usize, w, d as int));
        lemma_walk_frame(g1, g2, w);
        assert(walk_from(g2, source, init, p as usize, w, init + walk_cost(w)));
        lemma_shortest(g2, source, init, p as usize, w);
    }
}

} // verus!
