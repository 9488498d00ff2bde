//! The rules of the search lose no tour: every closed tour that sets out
//! from vertex `0` to vertex `1` is accepted.

use crate::clockwise::{
    closed_tours,
    is_clockwise_tour,
    left_cell,
    lemma_boundary_count,
    lemma_boundary_order,
    lemma_boundary_steps_run_clockwise,
    lemma_clockwise_from,
    lemma_keeps_right,
    lemma_meets_boundary_in_order,
    right_cell,
    roomy,
};
use crate::curve::{
    lemma_degree,
    lemma_joins,
    lemma_off_curve,
    lemma_position,
    lemma_position_of,
    lemma_walk_same_side,
    lemma_walls,
    position,
    Curve,
};
use crate::grid::{
    adjacent,
    grid_fits,
    interior,
    is_vertex,
    lemma_columns,
    lemma_grid_size,
    lemma_interior,
    lemma_rim_at,
    lemma_rim_ends,
    on_rim,
    rim_at,
    rim_len,
};
use crate::rules::{
    accepted,
    accepted_paths,
    extends,
    is_gate,
    lemma_rim_count_push,
    return_edge_available,
    rim_count,
    rim_exhausted,
    seen,
    splits,
};
use crate::thin::lemma_thin_tour_is_the_boundary;
use crate::tour::{
    after,
    before,
    is_closed_tour,
    joined_onward,
    lemma_accepted_is_closed_tour,
    lemma_corner_edges,
};
use vstd::prelude::*;

verus! {

/// The vertices seen on the first `k` positions of a closed tour are those
/// whose position is smaller than `k`.
pub proof fn lemma_seen_before(n: int, m: int, t: Seq<usize>, k: int, x: int)
    requires
        is_closed_tour(n, m, t),
        0 <= k <= t.len(),
        is_vertex(n, m, x),
    ensures
        seen(t.take(k), x) <==> position(t, x) < k,
{
    let q = t.take(k);
    let p = position(t, x);
    lemma_position(n, m, t, x);
    if p < k {
        assert(q[p] == x);
    }
    if seen(q, x) {
        let j = choose|j: int| 0 <= j < q.len() && #[trigger] q[j] == x;
        assert(t[j] == x);
        lemma_position_of(n, m, t, j);
    }
}

/// A clockwise tour ends at the vertex right below the start vertex.
pub proof fn lemma_ends_below_start(n: int, m: int, t: Seq<usize>)
    requires
        grid_fits(n, m),
        is_clockwise_tour(n, m, t),
    ensures
        t[t.len() - 1] == n,
{
    lemma_grid_size(n, m);
    lemma_corner_edges(n, m, t, 0);
}

/// No part of a clockwise tour uses up the boundary before the tour is
/// complete.
pub proof fn lemma_never_exhausted(n: int, m: int, t: Seq<usize>, k: int)
    requires
        roomy(n, m),
        is_clockwise_tour(n, m, t),
        1 <= k < t.len(),
    ensures
        !rim_exhausted(n, m, t.take(k)),
{
    let last = rim_len(n, m) - 1;
    lemma_grid_size(n, m);
    lemma_boundary_count(n, m, t, k);
    lemma_rim_ends(n, m);
    lemma_ends_below_start(n, m, t);
    lemma_position_of(n, m, t, t.len() - 1);
    if rim_count(n, m, t.take(k)) == rim_len(n, m) {
        assert(position(t, rim_at(n, m, last)) < k);
    }
}

/// Where a clockwise tour leaves the boundary, a return edge can be opened.
pub proof fn lemma_leaves_boundary(n: int, m: int, t: Seq<usize>, k: int)
    requires
        roomy(n, m),
        is_clockwise_tour(n, m, t),
        1 <= k < t.len(),
        on_rim(n, m, t[k - 1] as int),
        interior(n, m, t[k] as int),
    ensures
        return_edge_available(n, m, t.take(k)),
{
    let q = t.take(k);
    let v = t[k - 1];
    let c = rim_count(n, m, t.take(k - 1));
    lemma_grid_size(n, m);
    lemma_rim_ends(n, m);
    lemma_ends_below_start(n, m, t);
    lemma_meets_boundary_in_order(n, m, t, k - 1);
    assert(t.take(k - 1).push(v) =~= q);
    lemma_rim_count_push(n, m, t.take(k - 1), v);
    lemma_position_of(n, m, t, k - 1);
    lemma_position_of(n, m, t, k);
    lemma_position_of(n, m, t, t.len() - 1);
    assert(c + 1 < rim_len(n, m));
    let b = rim_at(n, m, c + 1);
    let pb = position(t, b);
    lemma_rim_at(n, m, c + 1);
    lemma_position(n, m, t, b);
    lemma_boundary_order(n, m, t, c, c + 1);
    let y = t[pb - 1] as int;
    lemma_position_of(n, m, t, pb - 1);
    assert(joined_onward(n, m, t, pb - 1));
    assert(after(t, pb - 1) == b);
    if on_rim(n, m, y) {
        lemma_boundary_steps_run_clockwise(n, m, t, pb - 1);
        lemma_clockwise_from(n, m, y, c);
    }
    lemma_seen_before(n, m, t, k, y);
    assert(is_gate(n, m, q, b, y));
}

/// No step of a clockwise tour is refused for turning away from an
/// unvisited boundary vertex on its left.
pub proof fn lemma_no_turn_refused(n: int, m: int, t: Seq<usize>, k: int)
    requires
        roomy(n, m),
        is_clockwise_tour(n, m, t),
        1 <= k < t.len(),
        interior(n, m, t[k - 1] as int),
        interior(n, m, t[k] as int),
    ensures
        ({
            let v = t[k - 1] as int;
            let d = t[k] - t[k - 1];
            let left = if d == -n {
                v - 1
            } else if d == n {
                v + 1
            } else {
                v + n
            };
            !(d != 1 && on_rim(n, m, left) && !seen(t.take(k), left))
        }),
{
    let v = t[k - 1] as int;
    let i = t[k] as int;
    let d = i - v;
    let left = if d == -n {
        v - 1
    } else if d == n {
        v + 1
    } else {
        v + n
    };
    lemma_grid_size(n, m);
    assert(joined_onward(n, m, t, k - 1));
    lemma_interior(n, m, v);
    lemma_position_of(n, m, t, k - 1);
    lemma_position_of(n, m, t, k);
    if d != 1 && on_rim(n, m, left) && !seen(t.take(k), left) {
        let p = position(t, left);
        lemma_position(n, m, t, left);
        lemma_seen_before(n, m, t, k, left);
        assert(joined_onward(n, m, t, p));
        let next = after(t, p);
        lemma_columns(n, m, left);
        lemma_columns(n, m, v);
        if p + 1 < t.len() {
            lemma_position_of(n, m, t, p + 1);
        } else {
            lemma_position_of(n, m, t, 0);
        }
        assert(next != v);
        assert(on_rim(n, m, next));
        lemma_boundary_steps_run_clockwise(n, m, t, p);
        lemma_keeps_right(n, m, t, p);
        lemma_keeps_right(n, m, t, k - 1);
        assert(right_cell(n, left, next) == left_cell(n, v, i));
    }
}

/// The sideways offset that belongs to the step `d`: one column for a step
/// between rows, one row for a step between columns.
pub open spec fn sideways(n: int, d: int) -> int {
    if d == n || d == -n {
        1
    } else {
        n
    }
}

/// Where a clockwise tour steps between two vertices off the boundary and
/// has visited neither vertex beside the second, it has not visited the
/// vertex straight ahead of it either.
#[verifier::rlimit(40)]
pub proof fn lemma_ahead_unvisited(n: int, m: int, t: Seq<usize>, k: int)
    requires
        roomy(n, m),
        is_clockwise_tour(n, m, t),
        1 <= k < t.len(),
        interior(n, m, t[k - 1] as int),
        interior(n, m, t[k] as int),
        !seen(t.take(k), t[k] - sideways(n, t[k] - t[k - 1])),
        !seen(t.take(k), t[k] + sideways(n, t[k] - t[k - 1])),
    ensures
        !seen(t.take(k), t[k] + (t[k] - t[k - 1])),
{
    let v = t[k - 1] as int;
    let i = t[k] as int;
    let d = i - v;
    let s = sideways(n, d);
    let ahead = i + d;
    lemma_grid_size(n, m);
    lemma_ends_below_start(n, m, t);
    assert(joined_onward(n, m, t, k - 1));
    assert(joined_onward(n, m, t, k));
    lemma_interior(n, m, v);
    lemma_interior(n, m, i);
    lemma_position_of(n, m, t, k - 1);
    lemma_position_of(n, m, t, k);
    lemma_position_of(n, m, t, k + 1);
    lemma_seen_before(n, m, t, k, ahead);
    lemma_seen_before(n, m, t, k, i - s);
    lemma_seen_before(n, m, t, k, i + s);
    lemma_position(n, m, t, ahead);
    lemma_position(n, m, t, i - s);
    lemma_position(n, m, t, i + s);
    if seen(t.take(k), ahead) {
        let next = t[k + 1] as int;
        let other = if next == i - s {
            i + s
        } else {
            i - s
        };
        let curve = Curve { t, lo: position(t, ahead), hi: k, via: None };
        assert(curve.wf(n, m));
        lemma_walk_same_side(curve, n, m, k + 1, position(t, other));
        lemma_walls(curve, n, m, i);
        lemma_degree(curve, n, m, i);
        assert(curve.joins(n, m, i, v));
        assert(curve.joins(n, m, i, ahead));
        lemma_off_curve(curve, n, m, i - s);
        lemma_off_curve(curve, n, m, i + s);
    }
}

/// `d` and `e` are steps to a neighbour, one along a row and one along a column.
pub open spec fn crosswise(n: int, d: int, e: int) -> bool {
    ((d == n || d == -n) && (e == 1 || e == -1)) || ((d == 1 || d == -1) && (e == n || e == -n))
}

/// A curve comes to `i` by the step `d` and turns there to the side `e`,
/// then turns again at `i + e` to go on by the step `d`. A vertex off the
/// curve next to `i`, and a vertex off the curve next to `i + e`, lie on
/// different sides of it.
#[verifier::rlimit(40)]
proof fn lemma_turn_at_side(curve: Curve, n: int, m: int, i: int, d: int, e: int, a: int, b: int)
    requires
        curve.wf(n, m),
        roomy(n, m),
        interior(n, m, i),
        crosswise(n, d, e),
        curve.joins(n, m, i, i - d),
        curve.joins(n, m, i, i + e),
        curve.joins(n, m, i + e, i + e + d),
        a == i + d || a == i - e,
        b == i + e + e || b == i + e - d,
        is_vertex(n, m, a),
        is_vertex(n, m, b),
        !curve.passes(a),
        !curve.passes(b),
    ensures
        curve.inside(n, m, a) != curve.inside(n, m, b),
{
    lemma_interior(n, m, i);
    lemma_columns(n, m, i);
    lemma_walls(curve, n, m, i);
    lemma_walls(curve, n, m, i + e);
    lemma_degree(curve, n, m, i);
    lemma_degree(curve, n, m, i + e);
    lemma_joins(curve, n, m, i, i + e);
    lemma_off_curve(curve, n, m, a);
    lemma_off_curve(curve, n, m, b);
}

/// A curve passes straight through `i` by the step `d` and turns at `i + d`
/// to the side `e`. A vertex off the curve next to `i` on that side, and a
/// vertex off the curve next to `i + d`, lie on different sides of it.
#[verifier::rlimit(40)]
proof fn lemma_turn_ahead(curve: Curve, n: int, m: int, i: int, d: int, e: int, b: int)
    requires
        curve.wf(n, m),
        roomy(n, m),
        interior(n, m, i),
        crosswise(n, d, e),
        curve.joins(n, m, i, i - d),
        curve.joins(n, m, i, i + d),
        curve.joins(n, m, i + d, i + d + e),
        b == i + d + d || b == i + d - e,
        is_vertex(n, m, i + e),
        is_vertex(n, m, b),
        !curve.passes(i + e),
        !curve.passes(b),
    ensures
        curve.inside(n, m, i + e) != curve.inside(n, m, b),
{
    lemma_interior(n, m, i);
    lemma_columns(n, m, i);
    lemma_walls(curve, n, m, i);
    lemma_walls(curve, n, m, i + d);
    lemma_degree(curve, n, m, i);
    lemma_degree(curve, n, m, i + d);
    lemma_joins(curve, n, m, i, i + d);
    lemma_off_curve(curve, n, m, i + e);
    lemma_off_curve(curve, n, m, b);
}

/// Where a clockwise tour steps between two vertices off the boundary and
/// has visited neither vertex beside the second nor the vertex ahead of it,
/// it has not visited the vertex ahead of it to the side `e` either.
#[verifier::rlimit(40)]
pub proof fn lemma_corner_unvisited(n: int, m: int, t: Seq<usize>, k: int, e: int)
    requires
        roomy(n, m),
        is_clockwise_tour(n, m, t),
        1 <= k < t.len(),
        interior(n, m, t[k - 1] as int),
        interior(n, m, t[k] as int),
        e == sideways(n, t[k] - t[k - 1]) || e == -sideways(n, t[k] - t[k - 1]),
        !seen(t.take(k), t[k] - e),
        !seen(t.take(k), t[k] + e),
        !seen(t.take(k), t[k] + (t[k] - t[k - 1])),
    ensures
        !seen(t.take(k), t[k] + (t[k] - t[k - 1]) + e),
{
    let v = t[k - 1] as int;
    let i = t[k] as int;
    let d = i - v;
    let ahead = i + d;
    let side = i + e;
    let corner = i + d + e;
    lemma_grid_size(n, m);
    lemma_ends_below_start(n, m, t);
    assert(joined_onward(n, m, t, k - 1));
    assert(joined_onward(n, m, t, k));
    lemma_interior(n, m, v);
    lemma_interior(n, m, i);
    assert(crosswise(n, d, e));
    lemma_position_of(n, m, t, k - 1);
    lemma_position_of(n, m, t, k);
    lemma_position_of(n, m, t, k + 1);
    lemma_seen_before(n, m, t, k, ahead);
    lemma_seen_before(n, m, t, k, corner);
    lemma_seen_before(n, m, t, k, i - e);
    lemma_seen_before(n, m, t, k, i + e);
    lemma_position(n, m, t, ahead);
    lemma_position(n, m, t, corner);
    lemma_position(n, m, t, i - e);
    lemma_position(n, m, t, i + e);
    if seen(t.take(k), corner) {
        let next = t[k + 1] as int;
        let via = if next == side {
            ahead
        } else {
            side
        };
        let curve = Curve { t, lo: position(t, corner), hi: k, via: Some(via) };
        let pv = position(t, via);
        assert(adjacent(n, m, i, via) && adjacent(n, m, via, corner)) by {
            lemma_columns(n, m, i);
            lemma_columns(n, m, via);
        }
        assert(curve.wf(n, m));
        let y = t[pv - 1] as int;
        lemma_position_of(n, m, t, pv - 1);
        assert(joined_onward(n, m, t, pv - 1));
        assert(after(t, pv - 1) == via);
        lemma_walk_same_side(curve, n, m, k + 1, pv - 1);
        assert(curve.joins(n, m, i, v));
        assert(curve.joins(n, m, i, via));
        assert(curve.joins(n, m, via, corner));
        assert(!curve.passes(next));
        assert(!curve.passes(y));
        if via == side {
            lemma_turn_at_side(curve, n, m, i, d, e, next, y);
        } else {
            lemma_turn_ahead(curve, n, m, i, d, e, y);
        }
    }
}

/// No step of a clockwise tour between two vertices off the boundary splits
/// the unvisited vertices.
pub proof fn lemma_never_splits(n: int, m: int, t: Seq<usize>, k: int)
    requires
        roomy(n, m),
        is_clockwise_tour(n, m, t),
        1 <= k < t.len(),
        interior(n, m, t[k - 1] as int),
        interior(n, m, t[k] as int),
    ensures
        !splits(n, m, t.take(k), t[k - 1] as int, t[k] as int),
{
    let q = t.take(k);
    let i = t[k] as int;
    let d = t[k] - t[k - 1];
    let s = sideways(n, d);
    lemma_no_turn_refused(n, m, t, k);
    if !seen(q, i - s) && !seen(q, i + s) {
        lemma_ahead_unvisited(n, m, t, k);
        lemma_corner_unvisited(n, m, t, k, s);
        lemma_corner_unvisited(n, m, t, k, -s);
    }
}

/// Every step of a clockwise tour is permitted by the rules of the search.
pub proof fn lemma_step_permitted(n: int, m: int, t: Seq<usize>, k: int)
    requires
        roomy(n, m),
        is_clockwise_tour(n, m, t),
        1 <= k < t.len(),
    ensures
        extends(n, m, t.take(k), t[k] as int),
{
    let q = t.take(k);
    let v = t[k - 1] as int;
    let i = t[k] as int;
    lemma_grid_size(n, m);
    lemma_never_exhausted(n, m, t, k);
    assert(q.last() == t[k - 1]);
    assert(joined_onward(n, m, t, k - 1));
    lemma_position_of(n, m, t, k);
    lemma_seen_before(n, m, t, k, i);
    if on_rim(n, m, v) {
        if on_rim(n, m, i) {
            lemma_boundary_steps_run_clockwise(n, m, t, k - 1);
        } else {
            lemma_leaves_boundary(n, m, t, k);
        }
    } else {
        if on_rim(n, m, i) {
            lemma_meets_boundary_in_order(n, m, t, k);
        } else {
            lemma_never_splits(n, m, t, k);
        }
    }
}

/// The rules of the search lose no tour: on a grid with at least three rows
/// and three columns, every closed tour that sets out from vertex `0` to
/// vertex `1` is accepted.
pub proof fn lemma_clockwise_tours_are_accepted(n: int, m: int, t: Seq<usize>)
    requires
        roomy(n, m),
        is_clockwise_tour(n, m, t),
    ensures
        accepted(n, m, t),
{
    lemma_grid_size(n, m);
    assert forall|k: int| 1 <= k < t.len() implies #[trigger] extends(
        n,
        m,
        t.take(k),
        t[k] as int,
    ) by {
        lemma_step_permitted(n, m, t, k);
    }
}

/// Every accepted path is a closed tour that sets out from vertex `0` to
/// vertex `1`.
pub proof fn lemma_accepted_is_clockwise_tour(n: int, m: int, t: Seq<usize>)
    requires
        grid_fits(n, m),
        accepted(n, m, t),
    ensures
        is_clockwise_tour(n, m, t),
{
    lemma_grid_size(n, m);
    lemma_accepted_is_closed_tour(n, m, t);
    assert(extends(n, m, t.take(1), t[1] as int));
    assert(t.take(1).last() == 0);
    lemma_columns(n, m, 0);
    lemma_columns(n, m, t[1] as int);
}

/// The search accepts exactly the closed tours that set out from vertex `0`
/// to vertex `1`: each closed tour of the grid once, walked in one of its
/// two directions.
pub proof fn lemma_accepted_are_the_clockwise_tours(n: int, m: int, t: Seq<usize>)
    requires
        grid_fits(n, m),
    ensures
        accepted(n, m, t) <==> is_clockwise_tour(n, m, t),
{
    if accepted(n, m, t) {
        lemma_accepted_is_clockwise_tour(n, m, t);
    }
    if is_clockwise_tour(n, m, t) {
        if n == 2 || m == 2 {
            lemma_thin_tour_is_the_boundary(n, m, t);
        } else {
            lemma_clockwise_tours_are_accepted(n, m, t);
        }
    }
}

/// The paths that the search accepts are the closed tours of the grid.
pub proof fn lemma_accepted_paths_are_the_closed_tours(n: int, m: int)
    requires
        grid_fits(n, m),
    ensures
        accepted_paths(n, m) == closed_tours(n, m),
{
    assert forall|t: Seq<usize>| accepted_paths(n, m).contains(t) == closed_tours(n, m).contains(
        t,
    ) by {
        lemma_accepted_are_the_clockwise_tours(n, m, t);
    }
    assert(accepted_paths(n, m) =~= closed_tours(n, m));
}

} // verus!
