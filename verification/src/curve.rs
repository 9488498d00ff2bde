//! Closed curves on the lattice and the two sides they have.
//!
//! A curve is a stretch of a closed tour whose ends are joined by a chord:
//! one lattice segment, or two that meet in a vertex off the stretch. The
//! cells of the grid that lie inside a curve are told from those outside by
//! counting how often a walk from the cell to the left edge of the grid
//! crosses the curve.

use crate::grid::{
    adjacent,
    grid_fits,
    is_vertex,
    lemma_columns,
    lemma_grid_size,
};
use crate::rules::seen;
use crate::tour::{after, before, is_closed_tour, joined_onward};
use vstd::prelude::*;

verus! {

/// The position at which the vertex `x` occurs on the tour `t`.
pub open spec fn position(t: Seq<usize>, x: int) -> int {
    choose|k: int| 0 <= k < t.len() && #[trigger] t[k] == x
}

/// Every vertex has a position on a closed tour.
pub proof fn lemma_position(n: int, m: int, t: Seq<usize>, x: int)
    requires
        is_closed_tour(n, m, t),
        is_vertex(n, m, x),
    ensures
        0 <= position(t, x) < t.len(),
        t[position(t, x)] == x,
{
    assert(seen(t, x));
    let k = choose|k: int| 0 <= k < t.len() && #[trigger] t[k] == x;
    assert(0 <= k < t.len() && t[k] == x);
}

/// The vertex at position `k` of a closed tour has position `k`, and no other.
pub proof fn lemma_position_of(n: int, m: int, t: Seq<usize>, k: int)
    requires
        is_closed_tour(n, m, t),
        0 <= k < t.len(),
    ensures
        is_vertex(n, m, t[k] as int),
        position(t, t[k] as int) == k,
{
    assert(joined_onward(n, m, t, k));
    let p = position(t, t[k] as int);
    assert(0 <= p < t.len() && t[p] == t[k]);
    if p < k {
        assert(t[p] != t[k]);
    }
    if k < p {
        assert(t[k] != t[p]);
    }
}

/// A stretch of a closed tour, from position `lo` to position `hi`, closed
/// by a chord from its last vertex back to its first. The chord is a single
/// lattice segment, or it leads through the vertex `via`.
pub struct Curve {
    pub t: Seq<usize>,
    pub lo: int,
    pub hi: int,
    pub via: Option<int>,
}

impl Curve {
    /// The stretch lies on a closed tour and holds at least three vertices,
    /// and the chord is made of lattice segments and stays off the stretch.
    pub open spec fn wf(self, n: int, m: int) -> bool {
        &&& grid_fits(n, m)
        &&& is_closed_tour(n, m, self.t)
        &&& 0 <= self.lo
        &&& self.lo + 2 <= self.hi < self.t.len()
        &&& match self.via {
            None => adjacent(n, m, self.t[self.hi] as int, self.t[self.lo] as int),
            Some(x) => {
                &&& adjacent(n, m, self.t[self.hi] as int, x)
                &&& adjacent(n, m, x, self.t[self.lo] as int)
                &&& !(self.lo <= position(self.t, x) <= self.hi)
            },
        }
    }

    /// The vertex `u` lies on the curve.
    pub open spec fn passes(self, u: int) -> bool {
        self.lo <= position(self.t, u) <= self.hi || self.via == Some(u)
    }

    /// The chord holds the segment between `a` and `b`.
    pub open spec fn chord(self, a: int, b: int) -> bool {
        let first = self.t[self.lo] as int;
        let last = self.t[self.hi] as int;
        match self.via {
            None => (a == last && b == first) || (a == first && b == last),
            Some(x) => (a == last && b == x) || (a == x && b == last) || (a == x && b == first)
                || (a == first && b == x),
        }
    }

    /// The curve holds the lattice segment between `a` and `b`.
    pub open spec fn joins(self, n: int, m: int, a: int, b: int) -> bool {
        let pa = position(self.t, a);
        let pb = position(self.t, b);
        &&& is_vertex(n, m, a)
        &&& is_vertex(n, m, b)
        &&& (self.chord(a, b) || (self.lo <= pa <= self.hi && self.lo <= pb <= self.hi && (pb
            == pa + 1 || pa == pb + 1)))
    }

    /// The vertex that follows `u` on the curve.
    pub open spec fn onward(self, n: int, m: int, u: int) -> int {
        let p = position(self.t, u);
        if self.via == Some(u) {
            self.t[self.lo] as int
        } else if p == self.hi {
            match self.via {
                Some(x) => x,
                None => self.t[self.lo] as int,
            }
        } else {
            self.t[p + 1] as int
        }
    }

    /// The vertex that comes before `u` on the curve.
    pub open spec fn backward(self, n: int, m: int, u: int) -> int {
        let p = position(self.t, u);
        if self.via == Some(u) {
            self.t[self.hi] as int
        } else if p == self.lo {
            match self.via {
                Some(x) => x,
                None => self.t[self.hi] as int,
            }
        } else {
            self.t[p - 1] as int
        }
    }

    /// Number of segments of the curve that meet at `u`.
    pub open spec fn degree(self, n: int, m: int, u: int) -> int {
        bit(self.joins(n, m, u, u - n)) + bit(self.joins(n, m, u, u + n)) + bit(
            self.joins(n, m, u, u - 1),
        ) + bit(self.joins(n, m, u, u + 1))
    }

    /// Number of upright segments of the curve that a walk to the left
    /// crosses when it starts in the cell whose upper left corner is `x`, in
    /// column `col`.
    pub open spec fn crossings(self, n: int, m: int, x: int, col: int) -> int
        decreases col + 1,
    {
        if col < 0 {
            0
        } else {
            self.crossings(n, m, x - 1, col - 1) + bit(self.joins(n, m, x, x + n))
        }
    }

    /// The cell whose upper left corner is `x` lies inside the curve. What is
    /// no cell of the grid lies outside.
    pub open spec fn inside(self, n: int, m: int, x: int) -> bool {
        &&& is_vertex(n, m, x)
        &&& x % n != n - 1
        &&& x + n < n * m
        &&& self.crossings(n, m, x, x % n) % 2 == 1
    }
}

/// One for true, nought for false.
pub open spec fn bit(b: bool) -> int {
    if b {
        1
    } else {
        0
    }
}

/// The whole of a closed tour, as a curve.
pub open spec fn whole(t: Seq<usize>) -> Curve {
    Curve { t, lo: 0, hi: t.len() - 1, via: None }
}

/// The segments of a curve are lattice segments, and each can be taken in
/// both directions.
pub proof fn lemma_joins(curve: Curve, n: int, m: int, a: int, b: int)
    requires
        curve.wf(n, m),
        curve.joins(n, m, a, b),
    ensures
        adjacent(n, m, a, b),
        curve.joins(n, m, b, a),
{
    let t = curve.t;
    let pa = position(t, a);
    let pb = position(t, b);
    lemma_position(n, m, t, a);
    lemma_position(n, m, t, b);
    if !curve.chord(a, b) {
        let low = if pa < pb {
            pa
        } else {
            pb
        };
        assert(joined_onward(n, m, t, low));
    }
}

/// The segments of a curve that meet at a vertex on the tour stretch are
/// those to its neighbours on the curve.
proof fn lemma_neighbours_on_curve(curve: Curve, n: int, m: int, u: int, w: int)
    requires
        curve.wf(n, m),
        is_vertex(n, m, u),
        is_vertex(n, m, w),
    ensures
        curve.joins(n, m, u, w) <==> (curve.passes(u) && (w == curve.onward(n, m, u) || w
            == curve.backward(n, m, u))),
{
    let t = curve.t;
    let p = position(t, u);
    lemma_position(n, m, t, u);
    lemma_position(n, m, t, w);
    lemma_position_of(n, m, t, curve.lo);
    lemma_position_of(n, m, t, curve.hi);
    if curve.lo <= p < curve.hi {
        lemma_position_of(n, m, t, p + 1);
    }
    if curve.lo < p <= curve.hi {
        lemma_position_of(n, m, t, p - 1);
    }
    match curve.via {
        Some(x) => {
            lemma_position(n, m, t, x);
        },
        None => {},
    }
}

/// On a curve, the vertex before `u` and the vertex after `u` are two
/// different lattice neighbours of `u`.
proof fn lemma_two_neighbours(curve: Curve, n: int, m: int, u: int)
    requires
        curve.wf(n, m),
        is_vertex(n, m, u),
        curve.passes(u),
    ensures
        adjacent(n, m, u, curve.onward(n, m, u)),
        adjacent(n, m, u, curve.backward(n, m, u)),
        curve.onward(n, m, u) != curve.backward(n, m, u),
        ({
            let a = curve.onward(n, m, u);
            a == u - n || a == u + n || a == u - 1 || a == u + 1
        }),
        ({
            let b = curve.backward(n, m, u);
            b == u - n || b == u + n || b == u - 1 || b == u + 1
        }),
{
    let t = curve.t;
    let p = position(t, u);
    lemma_position(n, m, t, u);
    lemma_position_of(n, m, t, curve.lo);
    lemma_position_of(n, m, t, curve.hi);
    match curve.via {
        Some(x) => {
            lemma_position(n, m, t, x);
        },
        None => {},
    }
    if curve.via != Some(u) {
        if p < curve.hi {
            assert(joined_onward(n, m, t, p));
            lemma_position_of(n, m, t, p + 1);
        }
        if p > curve.lo {
            assert(joined_onward(n, m, t, p - 1));
            lemma_position_of(n, m, t, p - 1);
        }
    }
}

/// At every vertex no segment of a curve ends alone: two of them meet where
/// the curve passes, and none elsewhere.
#[verifier::rlimit(40)]
pub proof fn lemma_degree(curve: Curve, n: int, m: int, u: int)
    requires
        curve.wf(n, m),
        is_vertex(n, m, u),
    ensures
        curve.degree(n, m, u) == if curve.passes(u) {
            2int
        } else {
            0int
        },
{
    if curve.passes(u) {
        lemma_two_neighbours(curve, n, m, u);
    }
    if is_vertex(n, m, u - n) {
        lemma_neighbours_on_curve(curve, n, m, u, u - n);
    }
    if is_vertex(n, m, u + n) {
        lemma_neighbours_on_curve(curve, n, m, u, u + n);
    }
    if is_vertex(n, m, u - 1) {
        lemma_neighbours_on_curve(curve, n, m, u, u - 1);
    }
    if is_vertex(n, m, u + 1) {
        lemma_neighbours_on_curve(curve, n, m, u, u + 1);
    }
}

/// A walk to the left crosses nothing when it starts above the grid or in
/// its last row, where no upright segment can be.
proof fn lemma_no_crossings(curve: Curve, n: int, m: int, x: int, col: int)
    requires
        curve.wf(n, m),
        col >= -1,
        x < 0 || x - col + n >= n * m,
    ensures
        curve.crossings(n, m, x, col) == 0,
    decreases col + 1,
{
    if col >= 0 {
        lemma_no_crossings(curve, n, m, x - 1, col - 1);
    }
}

/// Walking to the left from the two cells above and below a level segment
/// crosses the curve an even number of times in all, the segment counted in.
proof fn lemma_level_segment(curve: Curve, n: int, m: int, x: int, col: int)
    requires
        curve.wf(n, m),
        is_vertex(n, m, x),
        col == x % n,
    ensures
        (curve.crossings(n, m, x - n, col) + curve.crossings(n, m, x, col) + bit(
            curve.joins(n, m, x, x + 1),
        )) % 2 == 0,
    decreases col,
{
    lemma_columns(n, m, x);
    lemma_degree(curve, n, m, x);
    if curve.joins(n, m, x, x - n) {
        lemma_joins(curve, n, m, x, x - n);
    }
    if curve.joins(n, m, x - n, x) {
        lemma_joins(curve, n, m, x - n, x);
    }
    if curve.joins(n, m, x, x - 1) {
        lemma_joins(curve, n, m, x, x - 1);
    }
    if curve.joins(n, m, x - 1, x) {
        lemma_joins(curve, n, m, x - 1, x);
    }
    assert(curve.crossings(n, m, x, col) == curve.crossings(n, m, x - 1, col - 1) + bit(
        curve.joins(n, m, x, x + n),
    ));
    assert(curve.crossings(n, m, x - n, col) == curve.crossings(n, m, x - n - 1, col - 1) + bit(
        curve.joins(n, m, x - n, x - n + n),
    ));
    if col > 0 {
        lemma_level_segment(curve, n, m, x - 1, col - 1);
        assert(curve.joins(n, m, x - 1, x - 1 + 1) == curve.joins(n, m, x, x - 1));
    } else {
        assert(curve.crossings(n, m, x - 1, -1) == 0);
        assert(curve.crossings(n, m, x - n - 1, -1) == 0);
        assert(!curve.joins(n, m, x, x - 1));
    }
    assert(curve.joins(n, m, x - n, x) == curve.joins(n, m, x, x - n));
}

/// A walk to the left from beyond the right edge of the grid crosses the
/// curve an even number of times.
proof fn lemma_row_even(curve: Curve, n: int, m: int, x: int)
    requires
        curve.wf(n, m),
        is_vertex(n, m, x),
        x % n == n - 1,
    ensures
        curve.crossings(n, m, x, n - 1) % 2 == 0,
    decreases x,
{
    lemma_columns(n, m, x);
    lemma_level_segment(curve, n, m, x, n - 1);
    if curve.joins(n, m, x, x + 1) {
        lemma_joins(curve, n, m, x, x + 1);
    }
    if x >= n {
        lemma_row_even(curve, n, m, x - n);
    } else {
        lemma_no_crossings(curve, n, m, x - n, n - 1);
    }
}

/// The two cells to the left and to the right of an upright segment lie on
/// different sides of the curve exactly when the curve holds that segment.
proof fn lemma_upright_segment(curve: Curve, n: int, m: int, x: int)
    requires
        curve.wf(n, m),
        is_vertex(n, m, x),
        x + n < n * m,
    ensures
        (curve.inside(n, m, x - 1) != curve.inside(n, m, x)) == curve.joins(n, m, x, x + n),
{
    let c = x % n;
    lemma_columns(n, m, x);
    assert(curve.crossings(n, m, x, c) == curve.crossings(n, m, x - 1, c - 1) + bit(
        curve.joins(n, m, x, x + n),
    ));
    if c == 0 {
        assert(curve.crossings(n, m, x - 1, -1) == 0);
    } else {
        lemma_columns(n, m, x - 1);
    }
    if c == n - 1 {
        lemma_row_even(curve, n, m, x);
    }
}

/// The four cells around a vertex and the four segments that part them: two
/// cells that share a segment lie on different sides of the curve exactly
/// when the curve holds that segment.
#[verifier::rlimit(40)]
pub proof fn lemma_walls(curve: Curve, n: int, m: int, v: int)
    requires
        curve.wf(n, m),
        is_vertex(n, m, v),
    ensures
        (curve.inside(n, m, v - n - 1) != curve.inside(n, m, v - n)) == curve.joins(n, m, v, v - n),
        (curve.inside(n, m, v - 1) != curve.inside(n, m, v)) == curve.joins(n, m, v, v + n),
        (curve.inside(n, m, v - n - 1) != curve.inside(n, m, v - 1)) == curve.joins(n, m, v, v - 1),
        (curve.inside(n, m, v - n) != curve.inside(n, m, v)) == curve.joins(n, m, v, v + 1),
{
    let c = v % n;
    lemma_columns(n, m, v);
    lemma_grid_size(n, m);
    if curve.joins(n, m, v, v - n) {
        lemma_joins(curve, n, m, v, v - n);
    }
    if curve.joins(n, m, v - n, v) {
        lemma_joins(curve, n, m, v - n, v);
    }
    if curve.joins(n, m, v, v + n) {
        lemma_joins(curve, n, m, v, v + n);
    }
    if curve.joins(n, m, v, v - 1) {
        lemma_joins(curve, n, m, v, v - 1);
    }
    if curve.joins(n, m, v - 1, v) {
        lemma_joins(curve, n, m, v - 1, v);
    }
    if curve.joins(n, m, v, v + 1) {
        lemma_joins(curve, n, m, v, v + 1);
    }
    if v >= n {
        lemma_columns(n, m, v - n);
        lemma_upright_segment(curve, n, m, v - n);
        assert(curve.joins(n, m, v - n, v - n + n) == curve.joins(n, m, v, v - n));
    }
    if v + n < n * m {
        lemma_upright_segment(curve, n, m, v);
    }
    if c > 0 {
        lemma_columns(n, m, v - 1);
        lemma_level_segment(curve, n, m, v - 1, c - 1);
        if v < n {
            lemma_no_crossings(curve, n, m, v - 1 - n, c - 1);
        }
        if v + n >= n * m {
            lemma_no_crossings(curve, n, m, v - 1, c - 1);
        }
    }
    lemma_level_segment(curve, n, m, v, c);
    if v < n {
        lemma_no_crossings(curve, n, m, v - n, c);
    }
    if v + n >= n * m {
        lemma_no_crossings(curve, n, m, v, c);
    }
}

/// Around a vertex off the curve all four cells lie on the same side.
pub proof fn lemma_off_curve(curve: Curve, n: int, m: int, u: int)
    requires
        curve.wf(n, m),
        is_vertex(n, m, u),
        !curve.passes(u),
    ensures
        curve.inside(n, m, u - n - 1) == curve.inside(n, m, u),
        curve.inside(n, m, u - n) == curve.inside(n, m, u),
        curve.inside(n, m, u - 1) == curve.inside(n, m, u),
{
    lemma_walls(curve, n, m, u);
    lemma_degree(curve, n, m, u);
}

/// Two neighbouring vertices off the curve lie on the same side of it.
pub proof fn lemma_same_side(curve: Curve, n: int, m: int, u: int, w: int)
    requires
        curve.wf(n, m),
        adjacent(n, m, u, w),
        !curve.passes(u),
        !curve.passes(w),
    ensures
        curve.inside(n, m, u) == curve.inside(n, m, w),
{
    lemma_off_curve(curve, n, m, u);
    lemma_off_curve(curve, n, m, w);
}

/// A stretch of the tour that stays off the curve stays on one side of it.
pub proof fn lemma_walk_same_side(curve: Curve, n: int, m: int, from: int, to: int)
    requires
        curve.wf(n, m),
        0 <= from <= to < curve.t.len(),
        to < curve.lo || curve.hi < from,
        match curve.via {
            Some(x) => !(from <= position(curve.t, x) <= to),
            None => true,
        },
    ensures
        curve.inside(n, m, curve.t[from] as int) == curve.inside(n, m, curve.t[to] as int),
    decreases to - from,
{
    if from < to {
        let t = curve.t;
        lemma_walk_same_side(curve, n, m, from, to - 1);
        lemma_position_of(n, m, t, to - 1);
        lemma_position_of(n, m, t, to);
        assert(joined_onward(n, m, t, to - 1));
        lemma_same_side(curve, n, m, t[to - 1] as int, t[to] as int);
    }
}

/// On the whole tour, the segments at a vertex are those to the vertex
/// before it and to the vertex after it.
pub proof fn lemma_whole_joins(n: int, m: int, t: Seq<usize>, k: int, w: int)
    requires
        grid_fits(n, m),
        is_closed_tour(n, m, t),
        0 <= k < t.len(),
    ensures
        whole(t).wf(n, m),
        is_vertex(n, m, t[k] as int),
        whole(t).joins(n, m, t[k] as int, w) <==> (w == after(t, k) || w == before(t, k)),
{
    let curve = whole(t);
    lemma_grid_size(n, m);
    assert(joined_onward(n, m, t, t.len() - 1));
    lemma_position_of(n, m, t, k);
    lemma_position_of(n, m, t, 0);
    lemma_position_of(n, m, t, t.len() - 1);
    if k + 1 < t.len() {
        lemma_position_of(n, m, t, k + 1);
    }
    if k > 0 {
        lemma_position_of(n, m, t, k - 1);
    }
    if is_vertex(n, m, w) {
        lemma_neighbours_on_curve(curve, n, m, t[k] as int, w);
    }
}

/// At every vertex of the grid exactly two segments of a closed tour meet:
/// the one by which the tour comes and the one by which it leaves.
pub proof fn lemma_two_segments_meet(n: int, m: int, t: Seq<usize>, u: int)
    requires
        grid_fits(n, m),
        is_closed_tour(n, m, t),
        is_vertex(n, m, u),
    ensures
        whole(t).degree(n, m, u) == 2,
{
    lemma_position(n, m, t, u);
    lemma_whole_joins(n, m, t, position(t, u), u);
    lemma_degree(whole(t), n, m, u);
}

} // verus!
