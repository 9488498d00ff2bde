//! What the search reports, tied to the paths that its rules accept.

use crate::grid::{grid_fits, lemma_grid_size};
use crate::rules::{
    accepted,
    accepted_paths,
    entry,
    exhausted_paths,
    explore,
    explore_upto,
    explored_paths,
    extends,
    may_step,
    reachable,
    reached_paths,
    rim_exhausted,
    search_outcome,
    Outcome,
};
use vstd::prelude::*;
use vstd::set_lib::lemma_set_disjoint_lens;
use vstd::seq_lib::seq_to_set_is_finite;

verus! {

/// A value occurs in a concatenation when it occurs in one of the parts.
proof fn lemma_contains_concat<A>(a: Seq<A>, b: Seq<A>, x: A)
    ensures
        (a + b).contains(x) <==> (a.contains(x) || b.contains(x)),
{
    let c = a + b;
    if a.contains(x) {
        let i = choose|i: int| 0 <= i < a.len() && a[i] == x;
        assert(c[i] == x);
    }
    if b.contains(x) {
        let j = choose|j: int| 0 <= j < b.len() && b[j] == x;
        assert(c[a.len() + j] == x);
    }
    if c.contains(x) {
        let k = choose|k: int| 0 <= k < c.len() && c[k] == x;
        if k < a.len() {
            assert(a[k] == x);
        } else {
            assert(b[k - a.len()] == x);
        }
    }
}

/// A reachable path stays reachable when it is extended by a permitted step.
pub proof fn lemma_reachable_push(n: int, m: int, q: Seq<usize>, i: usize)
    requires
        reachable(n, m, q),
        extends(n, m, q, i as int),
    ensures
        reachable(n, m, q.push(i)),
{
    let e = q.push(i);
    assert forall|k: int| 1 <= k < e.len() implies #[trigger] extends(
        n,
        m,
        e.take(k),
        e[k] as int,
    ) by {
        if k < q.len() {
            assert(e.take(k) =~= q.take(k));
            assert(extends(n, m, q.take(k), q[k] as int));
        } else {
            assert(e.take(k) =~= q);
        }
    }
}

/// Every prefix of a reachable path is reachable.
pub proof fn lemma_reachable_prefix(n: int, m: int, t: Seq<usize>, len: int)
    requires
        reachable(n, m, t),
        1 <= len <= t.len(),
    ensures
        reachable(n, m, t.take(len)),
{
    let p = t.take(len);
    assert forall|k: int| 1 <= k < p.len() implies #[trigger] extends(
        n,
        m,
        p.take(k),
        p[k] as int,
    ) by {
        assert(p.take(k) =~= t.take(k));
        assert(extends(n, m, t.take(k), t[k] as int));
    }
}

/// Entries are counted once each: every entry ends as an accepted tour, as a
/// rejection for an exhausted boundary, or as a backtrack.
pub proof fn lemma_every_entry_ends(n: int, m: int, q: Seq<usize>)
    ensures
        explore(n, m, q).calls == explore(n, m, q).tours.len() + explore(n, m, q).rim_rejects
            + explore(n, m, q).backtracks,
    decreases n * m - q.len(), n * m + 1,
{
    if q.len() == 0 || q.len() > n * m {
    } else if rim_exhausted(n, m, q) {
    } else if q.len() == n * m {
    } else {
        lemma_every_entry_ends_upto(n, m, q, n * m);
    }
}

/// The same for the search restricted to next steps smaller than `bound`.
proof fn lemma_every_entry_ends_upto(n: int, m: int, q: Seq<usize>, bound: int)
    ensures
        explore_upto(n, m, q, bound).calls == explore_upto(n, m, q, bound).tours.len()
            + explore_upto(n, m, q, bound).rim_rejects + explore_upto(n, m, q, bound).backtracks,
    decreases n * m - q.len(), bound,
{
    if bound <= 0 || q.len() >= n * m {
    } else {
        lemma_every_entry_ends_upto(n, m, q, bound - 1);
        if may_step(n, m, q, bound - 1) {
            lemma_every_entry_ends(n, m, q.push((bound - 1) as usize));
        }
    }
}

/// Below a reachable path the search reports exactly the accepted paths that
/// begin with it.
proof fn lemma_tours_below(n: int, m: int, q: Seq<usize>, t: Seq<usize>)
    requires
        grid_fits(n, m),
        reachable(n, m, q),
        q.len() <= n * m,
    ensures
        explore(n, m, q).tours.contains(t) <==> (accepted(n, m, t) && t.take(q.len() as int) == q),
    decreases n * m - q.len(), n * m + 1,
{
    let len = q.len() as int;
    let found = explore(n, m, q).tours;
    if accepted(n, m, t) && t.take(len) == q && len < n * m {
        assert(extends(n, m, t.take(len), t[len] as int));
    }
    if rim_exhausted(n, m, q) {
        assert(!found.contains(t));
    } else if q.len() == n * m {
        assert(found[0] == q);
        if accepted(n, m, t) && t.take(len) == q {
            assert(t.take(len) =~= t);
        }
        if found.contains(t) {
            assert(t == q);
            assert(t.take(len) =~= t);
        }
    } else {
        lemma_tours_below_upto(n, m, q, n * m, t);
        assert(found =~= explore_upto(n, m, q, n * m).tours);
    }
}

/// Restricted to next steps smaller than `bound`, the search reports the
/// accepted paths that begin with `q` and go on with such a step.
proof fn lemma_tours_below_upto(n: int, m: int, q: Seq<usize>, bound: int, t: Seq<usize>)
    requires
        grid_fits(n, m),
        reachable(n, m, q),
        q.len() < n * m,
        !rim_exhausted(n, m, q),
        0 <= bound <= n * m,
    ensures
        explore_upto(n, m, q, bound).tours.contains(t) <==> (accepted(n, m, t) && t.take(
            q.len() as int,
        ) == q && t[q.len() as int] < bound),
    decreases n * m - q.len(), bound,
{
    let len = q.len() as int;
    if bound <= 0 {
        assert(!explore_upto(n, m, q, bound).tours.contains(t));
    } else {
        let i = bound - 1;
        let before = explore_upto(n, m, q, i);
        lemma_tours_below_upto(n, m, q, i, t);
        if accepted(n, m, t) && t.take(len) == q {
            assert(extends(n, m, t.take(len), t[len] as int));
        }
        if may_step(n, m, q, i) {
            let next = q.push(i as usize);
            let below = explore(n, m, next);
            lemma_reachable_push(n, m, q, i as usize);
            lemma_tours_below(n, m, next, t);
            lemma_contains_concat(before.tours, below.tours, t);
            if t.len() > len {
                if t.take(len + 1) == next {
                    assert(t.take(len) =~= next.take(len));
                    assert(next.take(len) =~= q);
                    assert(t[len] == t.take(len + 1)[len]);
                }
                if t.take(len) == q && t[len] == i {
                    assert(t.take(len + 1) =~= next);
                }
            }
        }
    }
}

/// The tours that the search reports are exactly the accepted paths.
pub proof fn lemma_reported_tours_are_the_accepted_paths(n: int, m: int, t: Seq<usize>)
    requires
        grid_fits(n, m),
    ensures
        search_outcome(n, m).tours.contains(t) <==> accepted(n, m, t),
{
    let start = seq![0usize];
    lemma_grid_size(n, m);
    lemma_tours_below(n, m, start, t);
    if accepted(n, m, t) {
        assert(t.take(1) =~= start);
    }
}

/// The paths `x` and `y` agree before position `p`, where `x` holds the
/// smaller vertex.
pub open spec fn parts_at(x: Seq<usize>, y: Seq<usize>, p: int) -> bool {
    0 <= p < x.len() && p < y.len() && x.take(p) == y.take(p) && x[p] < y[p]
}

/// `x` comes before `y` in the order of the search: at the first position
/// where they differ, `x` holds the smaller vertex.
pub open spec fn comes_before(x: Seq<usize>, y: Seq<usize>) -> bool {
    exists|p: int| #[trigger] parts_at(x, y, p)
}

/// Each path of the list comes before all that follow it.
pub open spec fn ascending(list: Seq<Seq<usize>>) -> bool {
    forall|a: int, b: int|
        0 <= a < b < list.len() ==> comes_before(#[trigger] list[a], #[trigger] list[b])
}

/// Below a reachable path the tours are reported in ascending order.
proof fn lemma_ascending_below(n: int, m: int, q: Seq<usize>)
    requires
        grid_fits(n, m),
        reachable(n, m, q),
        q.len() <= n * m,
    ensures
        ascending(explore(n, m, q).tours),
    decreases n * m - q.len(), n * m + 1,
{
    if rim_exhausted(n, m, q) {
    } else if q.len() == n * m {
    } else {
        lemma_ascending_below_upto(n, m, q, n * m);
        assert(explore(n, m, q).tours =~= explore_upto(n, m, q, n * m).tours);
    }
}

/// The same for the search restricted to next steps smaller than `bound`.
proof fn lemma_ascending_below_upto(n: int, m: int, q: Seq<usize>, bound: int)
    requires
        grid_fits(n, m),
        reachable(n, m, q),
        q.len() < n * m,
        !rim_exhausted(n, m, q),
        0 <= bound <= n * m,
    ensures
        ascending(explore_upto(n, m, q, bound).tours),
    decreases n * m - q.len(), bound,
{
    if bound > 0 {
        let i = bound - 1;
        let len = q.len() as int;
        lemma_ascending_below_upto(n, m, q, i);
        if may_step(n, m, q, i) {
            let next = q.push(i as usize);
            let a = explore_upto(n, m, q, i).tours;
            let b = explore(n, m, next).tours;
            let all = a + b;
            lemma_reachable_push(n, m, q, i as usize);
            lemma_ascending_below(n, m, next);
            assert forall|x: int, y: int| 0 <= x < y < all.len() implies comes_before(
                #[trigger] all[x],
                #[trigger] all[y],
            ) by {
                if y < a.len() {
                    assert(comes_before(a[x], a[y]));
                } else if x >= a.len() {
                    assert(comes_before(b[x - a.len()], b[y - a.len()]));
                } else {
                    let early = a[x];
                    let late = b[y - a.len()];
                    assert(a.contains(early));
                    assert(b.contains(late));
                    lemma_tours_below_upto(n, m, q, i, early);
                    lemma_tours_below(n, m, next, late);
                    assert(late.take(len + 1)[len] == next[len]);
                    assert(late.take(len) =~= late.take(len + 1).take(len));
                    assert(next.take(len) =~= q);
                    assert(parts_at(early, late, len));
                }
            }
        }
    }
}

/// The tours are reported in ascending order.
pub proof fn lemma_reported_tours_ascend(n: int, m: int)
    requires
        grid_fits(n, m),
    ensures
        ascending(search_outcome(n, m).tours),
{
    lemma_grid_size(n, m);
    lemma_ascending_below(n, m, seq![0usize]);
}

/// A list in ascending order holds no path twice.
pub proof fn lemma_ascending_is_distinct(list: Seq<Seq<usize>>)
    requires
        ascending(list),
    ensures
        list.no_duplicates(),
{
    assert forall|a: int, b: int| 0 <= a < list.len() && 0 <= b < list.len() && a != b implies list[a]
        != list[b] by {
        let low = if a < b {
            a
        } else {
            b
        };
        let high = if a < b {
            b
        } else {
            a
        };
        assert(comes_before(list[low], list[high]));
        let p = choose|p: int| #[trigger] parts_at(list[low], list[high], p);
        assert(list[low][p] != list[high][p]);
    }
}

/// No tour is reported twice.
pub proof fn lemma_reported_tours_are_distinct(n: int, m: int)
    requires
        grid_fits(n, m),
    ensures
        search_outcome(n, m).tours.no_duplicates(),
{
    lemma_reported_tours_ascend(n, m);
    lemma_ascending_is_distinct(search_outcome(n, m).tours);
}

/// The number of reported tours is the number of accepted paths.
pub proof fn lemma_tours_are_the_accepted_paths(n: int, m: int)
    requires
        grid_fits(n, m),
    ensures
        accepted_paths(n, m).finite(),
        accepted_paths(n, m).len() == search_outcome(n, m).tours.len(),
{
    let tours = search_outcome(n, m).tours;
    lemma_reported_tours_are_distinct(n, m);
    tours.unique_seq_to_set();
    seq_to_set_is_finite(tours);
    assert forall|t: Seq<usize>| tours.to_set().contains(t) == accepted_paths(n, m).contains(
        t,
    ) by {
        lemma_reported_tours_are_the_accepted_paths(n, m, t);
    }
    assert(tours.to_set() =~= accepted_paths(n, m));
}

/// The paths of one kind that the search enters at or below the path `q`.
pub open spec fn entered_below(
    n: int,
    m: int,
    q: Seq<usize>,
    kind: spec_fn(Seq<usize>) -> bool,
) -> Set<Seq<usize>> {
    Set::new(
        |r: Seq<usize>|
            reachable(n, m, r) && r.len() >= q.len() && r.take(q.len() as int) == q && kind(r),
    )
}

/// The paths of one kind that the search enters strictly below the path `q`
/// through a next step smaller than `bound`.
pub open spec fn entered_below_upto(
    n: int,
    m: int,
    q: Seq<usize>,
    bound: int,
    kind: spec_fn(Seq<usize>) -> bool,
) -> Set<Seq<usize>> {
    Set::new(
        |r: Seq<usize>|
            reachable(n, m, r) && r.len() > q.len() && r.take(q.len() as int) == q && r[q.len() as int]
                < bound && kind(r),
    )
}

/// `share` picks from an outcome the count of the entries of one kind: it
/// adds up over the parts of a search, and of a single entry it counts one
/// or none, as the path entered is of that kind or not.
pub open spec fn counts_kind(
    n: int,
    m: int,
    kind: spec_fn(Seq<usize>) -> bool,
    share: spec_fn(Outcome) -> nat,
) -> bool {
    &&& share(Outcome::nothing()) == 0
    &&& forall|a: Outcome, b: Outcome| #[trigger]
        share(a.followed_by(b)) == share(a) + share(b)
    &&& forall|q: Seq<usize>|
        0 < q.len() <= n * m ==> #[trigger] share(entry(n, m, q)) == if kind(q) {
            1nat
        } else {
            0nat
        }
}

/// Below a reachable path, a counter holds the number of paths of its kind
/// that the search enters there.
proof fn lemma_count_below(
    n: int,
    m: int,
    q: Seq<usize>,
    kind: spec_fn(Seq<usize>) -> bool,
    share: spec_fn(Outcome) -> nat,
)
    requires
        grid_fits(n, m),
        reachable(n, m, q),
        q.len() <= n * m,
        counts_kind(n, m, kind, share),
    ensures
        entered_below(n, m, q, kind).finite(),
        entered_below(n, m, q, kind).len() == share(explore(n, m, q)),
    decreases n * m - q.len(), n * m + 1,
{
    let len = q.len() as int;
    let all = entered_below(n, m, q, kind);
    let own = if kind(q) {
        Set::<Seq<usize>>::empty().insert(q)
    } else {
        Set::<Seq<usize>>::empty()
    };
    assert(q.take(len) =~= q);
    assert(share(entry(n, m, q)) == own.len());
    assert forall|r: Seq<usize>| all.contains(r) && r.len() == len implies r == q by {
        assert(r.take(len) =~= r);
    }
    assert forall|r: Seq<usize>| all.contains(r) && r.len() > len implies extends(
        n,
        m,
        q,
        r[len] as int,
    ) by {
        assert(extends(n, m, r.take(len), r[len] as int));
    }
    if rim_exhausted(n, m, q) || q.len() == n * m {
        assert(all =~= own);
    } else {
        let deeper = entered_below_upto(n, m, q, n * m, kind);
        lemma_count_below_upto(n, m, q, n * m, kind, share);
        assert(all =~= own + deeper);
        assert(own.disjoint(deeper));
        lemma_set_disjoint_lens(own, deeper);
    }
}

/// The same for the search restricted to next steps smaller than `bound`.
proof fn lemma_count_below_upto(
    n: int,
    m: int,
    q: Seq<usize>,
    bound: int,
    kind: spec_fn(Seq<usize>) -> bool,
    share: spec_fn(Outcome) -> nat,
)
    requires
        grid_fits(n, m),
        reachable(n, m, q),
        q.len() < n * m,
        !rim_exhausted(n, m, q),
        0 <= bound <= n * m,
        counts_kind(n, m, kind, share),
    ensures
        entered_below_upto(n, m, q, bound, kind).finite(),
        entered_below_upto(n, m, q, bound, kind).len() == share(explore_upto(n, m, q, bound)),
    decreases n * m - q.len(), bound,
{
    let len = q.len() as int;
    let all = entered_below_upto(n, m, q, bound, kind);
    if bound <= 0 {
        assert(all =~= Set::<Seq<usize>>::empty());
    } else {
        let i = bound - 1;
        let earlier = entered_below_upto(n, m, q, i, kind);
        lemma_count_below_upto(n, m, q, i, kind, share);
        assert forall|r: Seq<usize>| all.contains(r) implies extends(n, m, q, r[len] as int) by {
            assert(extends(n, m, r.take(len), r[len] as int));
        }
        if may_step(n, m, q, i) {
            let next = q.push(i as usize);
            let under = entered_below(n, m, next, kind);
            lemma_reachable_push(n, m, q, i as usize);
            lemma_count_below(n, m, next, kind, share);
            assert forall|r: Seq<usize>| under.contains(r) implies r.len() > len && r.take(len)
                == q && r[len] == i by {
                assert(r.take(len) =~= r.take(len + 1).take(len));
                assert(next.take(len) =~= q);
                assert(r[len] == r.take(len + 1)[len]);
            }
            assert forall|r: Seq<usize>|
                reachable(n, m, r) && r.len() > len && r.take(len) == q && r[len] == i && kind(
                    r,
                ) implies under.contains(r) by {
                assert(r.take(len + 1) =~= next);
            }
            assert(all =~= earlier + under);
            assert(earlier.disjoint(under));
            lemma_set_disjoint_lens(earlier, under);
        } else {
            assert(all =~= earlier);
        }
    }
}

/// A counter holds the number of paths of its kind that the search enters.
pub proof fn lemma_counter_counts_paths(
    n: int,
    m: int,
    kind: spec_fn(Seq<usize>) -> bool,
    share: spec_fn(Outcome) -> nat,
)
    requires
        grid_fits(n, m),
        counts_kind(n, m, kind, share),
    ensures
        Set::new(|r: Seq<usize>| reachable(n, m, r) && kind(r)).finite(),
        Set::new(|r: Seq<usize>| reachable(n, m, r) && kind(r)).len() == share(
            search_outcome(n, m),
        ),
{
    let start = seq![0usize];
    lemma_grid_size(n, m);
    lemma_count_below(n, m, start, kind, share);
    assert forall|r: Seq<usize>| reachable(n, m, r) implies r.take(1) == start by {
        assert(r.take(1) =~= start);
    }
    assert(Set::new(|r: Seq<usize>| reachable(n, m, r) && kind(r)) =~= entered_below(
        n,
        m,
        start,
        kind,
    ));
}

/// The search enters each path that its rules reach once: the number of
/// entries is the number of reachable paths.
pub proof fn lemma_entries_are_the_reached_paths(n: int, m: int)
    requires
        grid_fits(n, m),
    ensures
        reached_paths(n, m).finite(),
        reached_paths(n, m).len() == search_outcome(n, m).calls,
{
    let kind = |r: Seq<usize>| true;
    let share = |o: Outcome| o.calls;
    lemma_counter_counts_paths(n, m, kind, share);
    assert(reached_paths(n, m) =~= Set::new(|r: Seq<usize>| reachable(n, m, r) && kind(r)));
}

/// The rejections counted are the reachable paths that exhaust the boundary.
pub proof fn lemma_rejections_are_the_exhausted_paths(n: int, m: int)
    requires
        grid_fits(n, m),
    ensures
        exhausted_paths(n, m).finite(),
        exhausted_paths(n, m).len() == search_outcome(n, m).rim_rejects,
{
    let kind = |r: Seq<usize>| rim_exhausted(n, m, r);
    let share = |o: Outcome| o.rim_rejects;
    lemma_counter_counts_paths(n, m, kind, share);
    assert(exhausted_paths(n, m) =~= Set::new(|r: Seq<usize>| reachable(n, m, r) && kind(r)));
}

/// The backtracks counted are the reachable paths from which the search
/// goes on: those that neither exhaust the boundary nor hold every vertex.
pub proof fn lemma_backtracks_are_the_explored_paths(n: int, m: int)
    requires
        grid_fits(n, m),
    ensures
        explored_paths(n, m).finite(),
        explored_paths(n, m).len() == search_outcome(n, m).backtracks,
{
    let kind = |r: Seq<usize>| !rim_exhausted(n, m, r) && r.len() < n * m;
    let share = |o: Outcome| o.backtracks;
    lemma_counter_counts_paths(n, m, kind, share);
    assert(explored_paths(n, m) =~= Set::new(|r: Seq<usize>| reachable(n, m, r) && kind(r)));
}

} // verus!
