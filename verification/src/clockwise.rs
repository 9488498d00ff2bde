//! A closed tour walked from vertex `0` to vertex `1` keeps its inside on
//! the right, runs clockwise along the boundary, and meets the boundary
//! vertices in clockwise order.

use crate::curve::{
    lemma_off_curve,
    lemma_position,
    lemma_position_of,
    lemma_walk_same_side,
    lemma_walls,
    lemma_whole_joins,
    position,
    whole,
    Curve,
};
use crate::grid::{
    adjacent,
    clockwise_next,
    grid_fits,
    lemma_columns,
    lemma_grid_size,
    lemma_rim_at,
    lemma_rim_at_injective,
    lemma_rim_ends,
    lemma_rim_index,
    lemma_rim_step,
    on_rim,
    rim_at,
    rim_index,
    rim_len,
};
use crate::rules::{lemma_rim_count_push, rim_count};
use crate::tour::{after, before, is_closed_tour, joined_onward, lemma_two_tour_edges};
use vstd::prelude::*;

verus! {

/// The cell to the right of the step from `u` to its neighbour `w`, named by
/// its upper left corner.
pub open spec fn right_cell(n: int, u: int, w: int) -> int {
    if w == u + 1 {
        u
    } else if w == u - 1 {
        w - n
    } else if w == u + n {
        u - 1
    } else {
        w
    }
}

/// The cell to the left of the step from `u` to its neighbour `w`, named by
/// its upper left corner.
pub open spec fn left_cell(n: int, u: int, w: int) -> int {
    if w == u + 1 {
        u - n
    } else if w == u - 1 {
        w
    } else if w == u + n {
        u
    } else {
        w - 1
    }
}

/// `t` is a closed tour of the grid that sets out from vertex `0` to vertex `1`.
pub open spec fn is_clockwise_tour(n: int, m: int, t: Seq<usize>) -> bool {
    is_closed_tour(n, m, t) && t[0] == 0 && t[1] == 1
}

/// The closed tours of the grid, each of them named once: by the walk that
/// sets out from vertex `0` to vertex `1`.
pub open spec fn closed_tours(n: int, m: int) -> Set<Seq<usize>> {
    Set::new(|t: Seq<usize>| is_clockwise_tour(n, m, t))
}

/// Every step of a clockwise tour has the inside of the tour on its right
/// and the outside on its left.
pub proof fn lemma_keeps_right(n: int, m: int, t: Seq<usize>, k: int)
    requires
        grid_fits(n, m),
        is_clockwise_tour(n, m, t),
        0 <= k < t.len(),
    ensures
        whole(t).inside(n, m, right_cell(n, t[k] as int, after(t, k))),
        !whole(t).inside(n, m, left_cell(n, t[k] as int, after(t, k))),
    decreases k,
{
    let curve = whole(t);
    let v = t[k] as int;
    lemma_grid_size(n, m);
    lemma_whole_joins(n, m, t, k, v - n);
    lemma_whole_joins(n, m, t, k, v + n);
    lemma_whole_joins(n, m, t, k, v - 1);
    lemma_whole_joins(n, m, t, k, v + 1);
    lemma_walls(curve, n, m, v);
    lemma_two_tour_edges(n, m, t, k);
    if k > 0 {
        lemma_keeps_right(n, m, t, k - 1);
        assert(after(t, k - 1) == v);
    }
}

/// A grid with at least three rows and three columns: one with vertices off
/// the boundary.
pub open spec fn roomy(n: int, m: int) -> bool {
    grid_fits(n, m) && n >= 3 && m >= 3
}

/// A step of a clockwise tour along the boundary, from a boundary vertex to
/// the one before or after it on the boundary walk, leads to the one after.
pub proof fn lemma_along_boundary(n: int, m: int, t: Seq<usize>, k: int)
    requires
        grid_fits(n, m),
        is_clockwise_tour(n, m, t),
        0 <= k < t.len(),
        on_rim(n, m, t[k] as int),
        on_rim(n, m, after(t, k)),
        after(t, k) == clockwise_next(n, m, t[k] as int) || t[k] == clockwise_next(n, m, after(t, k)),
    ensures
        after(t, k) == clockwise_next(n, m, t[k] as int),
{
    lemma_keeps_right(n, m, t, k);
    assert(joined_onward(n, m, t, k));
    lemma_grid_size(n, m);
    lemma_columns(n, m, t[k] as int);
    lemma_columns(n, m, after(t, k));
}

/// On a grid with at least three rows and three columns, two boundary
/// vertices joined by a lattice segment follow one another on the boundary
/// walk.
pub proof fn lemma_side_by_side(n: int, m: int, a: int, b: int)
    requires
        roomy(n, m),
        on_rim(n, m, a),
        on_rim(n, m, b),
        adjacent(n, m, a, b),
    ensures
        b == clockwise_next(n, m, a) || a == clockwise_next(n, m, b),
{
    lemma_grid_size(n, m);
    lemma_columns(n, m, a);
    lemma_columns(n, m, b);
    assert(n * m >= 3 * n) by (nonlinear_arith)
        requires
            n >= 3,
            m >= 3,
    ;
}

/// On a grid with at least three rows and three columns, a step of a
/// clockwise tour from one boundary vertex to another is the clockwise step.
pub proof fn lemma_boundary_steps_run_clockwise(n: int, m: int, t: Seq<usize>, k: int)
    requires
        roomy(n, m),
        is_clockwise_tour(n, m, t),
        0 <= k < t.len(),
        on_rim(n, m, t[k] as int),
        on_rim(n, m, after(t, k)),
    ensures
        after(t, k) == clockwise_next(n, m, t[k] as int),
{
    assert(joined_onward(n, m, t, k));
    lemma_side_by_side(n, m, t[k] as int, after(t, k));
    lemma_along_boundary(n, m, t, k);
}

/// The boundary vertex before `b` on the boundary walk is the only boundary
/// vertex whose clockwise step leads to `b`.
pub proof fn lemma_clockwise_from(n: int, m: int, y: int, j: int)
    requires
        grid_fits(n, m),
        on_rim(n, m, y),
        0 <= j,
        j + 1 < rim_len(n, m),
        clockwise_next(n, m, y) == rim_at(n, m, j + 1),
    ensures
        y == rim_at(n, m, j),
{
    let i = rim_index(n, m, y);
    lemma_rim_index(n, m, y);
    lemma_rim_step(n, m, i);
    lemma_rim_ends(n, m);
    if i + 1 < rim_len(n, m) {
        lemma_rim_at_injective(n, m, i + 1, j + 1);
    } else {
        lemma_rim_at_injective(n, m, 0, j + 1);
    }
}

/// A clockwise tour comes to each boundary vertex before it comes to the
/// next one on the boundary walk.
#[verifier::rlimit(40)]
pub proof fn lemma_boundary_order_step(n: int, m: int, t: Seq<usize>, j: int)
    requires
        grid_fits(n, m),
        is_clockwise_tour(n, m, t),
        0 <= j,
        j + 1 < rim_len(n, m),
    ensures
        position(t, rim_at(n, m, j)) < position(t, rim_at(n, m, j + 1)),
{
    let a = rim_at(n, m, j);
    let b = rim_at(n, m, j + 1);
    let pa = position(t, a);
    let pb = position(t, b);
    lemma_grid_size(n, m);
    lemma_rim_at(n, m, j);
    lemma_rim_at(n, m, j + 1);
    lemma_rim_step(n, m, j);
    lemma_rim_ends(n, m);
    lemma_position(n, m, t, a);
    lemma_position(n, m, t, b);
    lemma_position_of(n, m, t, 0);
    if pa == pb {
        lemma_rim_at_injective(n, m, j, j + 1);
    }
    if pb == 0 {
        lemma_rim_at_injective(n, m, 0, j + 1);
    }
    if pb < pa {
        lemma_position_of(n, m, t, pb - 1);
        let y = t[pb - 1] as int;
        assert(joined_onward(n, m, t, pb - 1));
        assert(after(t, pb - 1) == b);
        if pa == pb + 1 {
            assert(after(t, pb) == a);
            lemma_along_boundary(n, m, t, pb);
            lemma_rim_step(n, m, j + 1);
            if j + 2 < rim_len(n, m) {
                lemma_rim_at_injective(n, m, j, j + 2);
            } else {
                lemma_rim_at_injective(n, m, j, 0);
            }
        } else {
            let curve = Curve { t, lo: pb, hi: pa, via: None };
            assert(curve.wf(n, m));
            if on_rim(n, m, y) && (b == clockwise_next(n, m, y) || y == clockwise_next(n, m, b)) {
                lemma_along_boundary(n, m, t, pb - 1);
                lemma_clockwise_from(n, m, y, j);
            }
            lemma_walk_same_side(curve, n, m, 0, pb - 1);
            lemma_off_curve(curve, n, m, 0);
            lemma_off_curve(curve, n, m, y);
            lemma_walls(curve, n, m, b);
            lemma_columns(n, m, a);
            lemma_columns(n, m, b);
            lemma_columns(n, m, y);
            assert(curve.joins(n, m, b, a));
        }
    }
}

/// A clockwise tour meets the boundary vertices in the order of the
/// boundary walk.
pub proof fn lemma_boundary_order(n: int, m: int, t: Seq<usize>, i: int, j: int)
    requires
        grid_fits(n, m),
        is_clockwise_tour(n, m, t),
        0 <= i < j < rim_len(n, m),
    ensures
        position(t, rim_at(n, m, i)) < position(t, rim_at(n, m, j)),
    decreases j - i,
{
    lemma_boundary_order_step(n, m, t, j - 1);
    if i < j - 1 {
        lemma_boundary_order(n, m, t, i, j - 1);
    }
}

/// Before position `k`, the tour has met the first `c` vertices of the
/// boundary walk and none of the others.
pub open spec fn boundary_met(n: int, m: int, t: Seq<usize>, k: int, c: int) -> bool {
    &&& 0 <= c <= rim_len(n, m)
    &&& forall|j: int| 0 <= j < c ==> position(t, #[trigger] rim_at(n, m, j)) < k
    &&& forall|j: int| c <= j < rim_len(n, m) ==> position(t, #[trigger] rim_at(n, m, j)) >= k
}

/// The boundary vertices that a clockwise tour has met before any position
/// are the first so many of the boundary walk.
pub proof fn lemma_boundary_count(n: int, m: int, t: Seq<usize>, k: int)
    requires
        grid_fits(n, m),
        is_clockwise_tour(n, m, t),
        0 <= k <= t.len(),
    ensures
        boundary_met(n, m, t, k, rim_count(n, m, t.take(k))),
    decreases k,
{
    lemma_grid_size(n, m);
    if k == 0 {
        assert(t.take(0) =~= Seq::<usize>::empty());
        assert forall|j: int| 0 <= j < rim_len(n, m) implies position(
            t,
            #[trigger] rim_at(n, m, j),
        ) >= 0 by {
            lemma_rim_at(n, m, j);
            lemma_position(n, m, t, rim_at(n, m, j));
        }
    } else {
        let v = t[k - 1];
        let c = rim_count(n, m, t.take(k - 1));
        lemma_boundary_count(n, m, t, k - 1);
        assert(t.take(k - 1).push(v) =~= t.take(k));
        lemma_rim_count_push(n, m, t.take(k - 1), v);
        lemma_position_of(n, m, t, k - 1);
        if on_rim(n, m, v as int) {
            let i = rim_index(n, m, v as int);
            lemma_rim_index(n, m, v as int);
            if i < c {
                assert(position(t, rim_at(n, m, i)) < k - 1);
            }
            if i > c {
                lemma_boundary_order(n, m, t, c, i);
                assert(position(t, rim_at(n, m, c)) >= k - 1);
            }
            assert forall|j: int| c + 1 <= j < rim_len(n, m) implies position(
                t,
                #[trigger] rim_at(n, m, j),
            ) >= k by {
                lemma_boundary_order(n, m, t, c, j);
            }
        } else {
            assert forall|j: int| c <= j < rim_len(n, m) implies position(
                t,
                #[trigger] rim_at(n, m, j),
            ) >= k by {
                lemma_rim_at(n, m, j);
                lemma_position(n, m, t, rim_at(n, m, j));
            }
        }
    }
}

/// Each boundary vertex on a clockwise tour is the one that the boundary
/// walk had come to.
pub proof fn lemma_meets_boundary_in_order(n: int, m: int, t: Seq<usize>, k: int)
    requires
        grid_fits(n, m),
        is_clockwise_tour(n, m, t),
        0 <= k < t.len(),
        on_rim(n, m, t[k] as int),
    ensures
        rim_count(n, m, t.take(k)) < rim_len(n, m),
        t[k] == rim_at(n, m, rim_count(n, m, t.take(k))),
{
    let c = rim_count(n, m, t.take(k));
    let i = rim_index(n, m, t[k] as int);
    lemma_boundary_count(n, m, t, k);
    lemma_rim_index(n, m, t[k] as int);
    lemma_position_of(n, m, t, k);
    if i < c {
        assert(position(t, rim_at(n, m, i)) < k);
    }
    if i > c {
        lemma_boundary_order(n, m, t, c, i);
        assert(position(t, rim_at(n, m, c)) >= k);
    }
}

} // verus!
