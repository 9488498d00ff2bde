//! Grids of two rows or two columns: every vertex lies on the boundary, and
//! the walk around the boundary is the only tour.

use crate::clockwise::{is_clockwise_tour, lemma_meets_boundary_in_order};
use crate::curve::lemma_position_of;
use crate::enumeration::lemma_reported_tours_are_the_accepted_paths;
use crate::grid::{
    grid_fits,
    is_vertex,
    lemma_columns,
    lemma_grid_size,
    lemma_rim_at,
    lemma_rim_at_injective,
    lemma_rim_ends,
    lemma_rim_step,
    on_rim,
    rim_at,
    rim_len,
};
use crate::rules::{
    accepted,
    explore,
    explore_upto,
    lemma_rim_count_push,
    may_step,
    rim_count,
    search_outcome,
    seen,
};
use vstd::prelude::*;

verus! {

/// A grid with two rows or two columns.
pub open spec fn thin(n: int, m: int) -> bool {
    grid_fits(n, m) && (n == 2 || m == 2)
}

/// The first `k` vertices of the walk around the boundary.
pub open spec fn rim_walk_prefix(n: int, m: int, k: int) -> Seq<usize> {
    Seq::new(k as nat, |j: int| rim_at(n, m, j) as usize)
}

/// On a thin grid the boundary walk is as long as the grid has vertices, and
/// every vertex lies on the boundary.
pub proof fn lemma_thin_boundary(n: int, m: int, v: int)
    requires
        thin(n, m),
    ensures
        rim_len(n, m) == n * m,
        is_vertex(n, m, v) ==> on_rim(n, m, v),
{
    assert(rim_len(n, m) == n * m) by (nonlinear_arith)
        requires
            n == 2 || m == 2,
            rim_len(n, m) == 2 * n + 2 * m - 4,
    ;
    if is_vertex(n, m, v) {
        lemma_columns(n, m, v);
    }
}

/// On a thin grid, the first `k` vertices of the boundary walk are `k`
/// boundary vertices, they are followed by the `k`-th, and the `k`-th is not
/// among them.
proof fn lemma_thin_walk(n: int, m: int, k: int)
    requires
        thin(n, m),
        0 <= k <= n * m,
    ensures
        rim_count(n, m, rim_walk_prefix(n, m, k)) == k,
        k < n * m ==> rim_walk_prefix(n, m, k).push(rim_at(n, m, k) as usize) == rim_walk_prefix(
            n,
            m,
            k + 1,
        ),
        k < n * m ==> is_vertex(n, m, rim_at(n, m, k)) && !seen(
            rim_walk_prefix(n, m, k),
            rim_at(n, m, k),
        ),
    decreases k,
{
    let walk = rim_walk_prefix(n, m, k);
    lemma_thin_boundary(n, m, 0);
    if k > 0 {
        let shorter = rim_walk_prefix(n, m, k - 1);
        lemma_thin_walk(n, m, k - 1);
        lemma_rim_at(n, m, k - 1);
        lemma_rim_count_push(n, m, shorter, rim_at(n, m, k - 1) as usize);
    }
    if k < n * m {
        lemma_rim_at(n, m, k);
        assert(walk.push(rim_at(n, m, k) as usize) =~= rim_walk_prefix(n, m, k + 1));
        if seen(walk, rim_at(n, m, k)) {
            let j = choose|j: int| 0 <= j < walk.len() && #[trigger] walk[j] == rim_at(n, m, k);
            lemma_rim_at(n, m, j);
            lemma_rim_at_injective(n, m, j, k);
        }
    }
}

/// On a thin grid, the only step permitted after the first `k` vertices of
/// the boundary walk leads to the `k`-th.
proof fn lemma_thin_step(n: int, m: int, k: int, i: int)
    requires
        thin(n, m),
        1 <= k < n * m,
    ensures
        may_step(n, m, rim_walk_prefix(n, m, k), i) <==> i == rim_at(n, m, k),
{
    let walk = rim_walk_prefix(n, m, k);
    lemma_thin_boundary(n, m, i);
    lemma_thin_walk(n, m, k);
    lemma_rim_at(n, m, k - 1);
    lemma_rim_at(n, m, k);
    lemma_rim_step(n, m, k - 1);
    assert(walk.last() == rim_at(n, m, k - 1));
}

/// On a thin grid, what the search reports after the first `k` vertices of
/// the boundary walk, it reports through the step to the `k`-th.
proof fn lemma_thin_upto(n: int, m: int, k: int, bound: int)
    requires
        thin(n, m),
        1 <= k < n * m,
        0 <= bound <= n * m,
    ensures
        explore_upto(n, m, rim_walk_prefix(n, m, k), bound).tours == (if bound > rim_at(n, m, k) {
            explore(n, m, rim_walk_prefix(n, m, k + 1)).tours
        } else {
            Seq::empty()
        }),
    decreases bound,
{
    let walk = rim_walk_prefix(n, m, k);
    lemma_thin_walk(n, m, k);
    assert(walk.len() == k);
    if bound > 0 {
        let i = bound - 1;
        lemma_thin_upto(n, m, k, i);
        lemma_thin_step(n, m, k, i);
        if may_step(n, m, walk, i) {
            assert(Seq::<Seq<usize>>::empty() + explore(n, m, walk.push(i as usize)).tours
                =~= explore(n, m, walk.push(i as usize)).tours);
        }
    }
}

/// On a thin grid, the search below any part of the boundary walk reports
/// the whole walk and nothing else.
proof fn lemma_thin_explore(n: int, m: int, k: int)
    requires
        thin(n, m),
        1 <= k <= n * m,
    ensures
        explore(n, m, rim_walk_prefix(n, m, k)).tours == seq![rim_walk_prefix(n, m, n * m)],
    decreases n * m - k,
{
    let walk = rim_walk_prefix(n, m, k);
    lemma_thin_boundary(n, m, 0);
    lemma_thin_walk(n, m, k);
    if k < n * m {
        lemma_thin_explore(n, m, k + 1);
        lemma_thin_upto(n, m, k, n * m);
        assert(Seq::<Seq<usize>>::empty() + explore_upto(n, m, walk, n * m).tours
            =~= explore_upto(n, m, walk, n * m).tours);
    }
}

/// A grid with two rows or two columns has exactly one tour: the walk around
/// its boundary.
pub proof fn lemma_thin_grids_have_one_tour(n: int, m: int)
    requires
        thin(n, m),
    ensures
        search_outcome(n, m).tours == seq![rim_walk_prefix(n, m, n * m)],
        search_outcome(n, m).tours.len() == 1,
{
    lemma_grid_size(n, m);
    lemma_rim_ends(n, m);
    lemma_thin_explore(n, m, 1);
    assert(seq![0usize] =~= rim_walk_prefix(n, m, 1));
}

/// A path that holds boundary vertices only holds as many of them as it is long.
proof fn lemma_all_on_boundary(n: int, m: int, q: Seq<usize>)
    requires
        forall|k: int| 0 <= k < q.len() ==> on_rim(n, m, #[trigger] q[k] as int),
    ensures
        rim_count(n, m, q) == q.len(),
    decreases q.len(),
{
    if q.len() > 0 {
        lemma_all_on_boundary(n, m, q.drop_last());
    }
}

/// On a thin grid the walk around the boundary is the only closed tour that
/// sets out from vertex `0` to vertex `1`, and the search accepts it.
pub proof fn lemma_thin_tour_is_the_boundary(n: int, m: int, t: Seq<usize>)
    requires
        thin(n, m),
        is_clockwise_tour(n, m, t),
    ensures
        t == rim_walk_prefix(n, m, n * m),
        accepted(n, m, t),
{
    let walk = rim_walk_prefix(n, m, n * m);
    assert forall|k: int| 0 <= k < t.len() implies t[k] == walk[k] by {
        let q = t.take(k);
        assert forall|j: int| 0 <= j < q.len() implies on_rim(n, m, #[trigger] q[j] as int) by {
            lemma_position_of(n, m, t, j);
            lemma_thin_boundary(n, m, t[j] as int);
        }
        lemma_all_on_boundary(n, m, q);
        lemma_position_of(n, m, t, k);
        lemma_thin_boundary(n, m, t[k] as int);
        lemma_meets_boundary_in_order(n, m, t, k);
    }
    assert(t =~= walk);
    lemma_thin_grids_have_one_tour(n, m);
    assert(search_outcome(n, m).tours[0] == t);
    lemma_reported_tours_are_the_accepted_paths(n, m, t);
}

} // verus!
