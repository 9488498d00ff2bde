//! Geometry of an `n` by `m` dot grid.
//!
//! A grid has `n` columns and `m` rows. Its vertices are numbered row by row,
//! so vertex `v` sits in row `v / n` and column `v % n`. But for the bound on
//! the number of vertices, this module holds definitions and proofs only;
//! the executable board is built against them.

use vstd::arithmetic::div_mod::{
    lemma_fundamental_div_mod,
    lemma_fundamental_div_mod_converse,
    lemma_mod_bound,
};
use vstd::prelude::*;

verus! {

/// The largest number of vertices a board may have.
pub const MAX_VERTICES: usize = 400;

/// `v` names a vertex of the grid.
pub open spec fn is_vertex(n: int, m: int, v: int) -> bool {
    0 <= v < n * m
}

/// A grid with at least two rows and two columns whose vertices can be numbered.
pub open spec fn grid_fits(n: int, m: int) -> bool {
    2 <= n && 2 <= m && n * m <= usize::MAX
}

/// `v` lies on the outer boundary: first or last row, first or last column.
pub open spec fn on_rim(n: int, m: int, v: int) -> bool {
    is_vertex(n, m, v) && (v < n || v >= n * m - n || v % n == 0 || v % n == n - 1)
}

/// `v` is a vertex that does not lie on the boundary.
pub open spec fn interior(n: int, m: int, v: int) -> bool {
    is_vertex(n, m, v) && !on_rim(n, m, v)
}

/// `a` and `b` are joined by a unit segment of the lattice.
pub open spec fn adjacent(n: int, m: int, a: int, b: int) -> bool {
    is_vertex(n, m, a) && is_vertex(n, m, b) && (b == a + n || a == b + n || (b == a + 1 && b % n
        != 0) || (a == b + 1 && a % n != 0))
}

/// The four corners of the grid.
pub open spec fn is_corner(n: int, m: int, v: int) -> bool {
    v == 0 || v == n - 1 || v == n * m - n || v == n * m - 1
}

/// Number of boundary vertices.
pub open spec fn rim_len(n: int, m: int) -> int {
    2 * n + 2 * m - 4
}

/// Row of the `k`-th boundary vertex, walking clockwise from the top left corner.
pub open spec fn rim_row(n: int, m: int, k: int) -> int {
    if k < n {
        0
    } else if k < n + m - 1 {
        k - n + 1
    } else if k < 2 * n + m - 2 {
        m - 1
    } else {
        2 * n + 2 * m - 4 - k
    }
}

/// Column of the `k`-th boundary vertex, walking clockwise from the top left corner.
pub open spec fn rim_col(n: int, m: int, k: int) -> int {
    if k < n {
        k
    } else if k < n + m - 1 {
        n - 1
    } else if k < 2 * n + m - 2 {
        2 * n + m - 3 - k
    } else {
        0
    }
}

/// The `k`-th boundary vertex in clockwise order: along the top row from left
/// to right, down the right column, back along the bottom row, up the left column.
pub open spec fn rim_at(n: int, m: int, k: int) -> int {
    rim_row(n, m, k) * n + rim_col(n, m, k)
}

/// The boundary vertex that follows the boundary vertex `a` in clockwise order.
pub open spec fn clockwise_next(n: int, m: int, a: int) -> int {
    if a < n - 1 {
        a + 1
    } else if a % n == n - 1 && a != n * m - 1 {
        a + n
    } else if a >= n * m - n && a != n * m - n {
        a - 1
    } else {
        a - n
    }
}

/// The board holds a directed edge from `a` to `b`.
///
/// Every lattice segment gives an edge in both directions, with two exceptions.
/// Between boundary vertices only the clockwise direction exists, and no edge
/// leads from the inside onto the boundary.
pub open spec fn edge(n: int, m: int, a: int, b: int) -> bool {
    adjacent(n, m, a, b) && (on_rim(n, m, b) ==> on_rim(n, m, a) && b == clockwise_next(n, m, a))
}

/// Consecutive rows start `n` vertices apart.
pub proof fn lemma_row_shift(n: int, r: int)
    ensures
        (r + 1) * n == r * n + n,
        (r - 1) * n == r * n - n,
{
    assert((r + 1) * n == r * n + n) by (nonlinear_arith);
    assert((r - 1) * n == r * n - n) by (nonlinear_arith);
}

/// Row `r` starts at or after row `s` when `s <= r`.
pub proof fn lemma_row_order(n: int, s: int, r: int)
    requires
        n > 0,
        s <= r,
    ensures
        s * n <= r * n,
{
    assert(s * n <= r * n) by (nonlinear_arith)
        requires
            n > 0,
            s <= r,
    ;
}

/// The vertex in row `r`, column `c`.
pub proof fn lemma_place(n: int, m: int, r: int, c: int)
    requires
        n >= 1,
        m >= 1,
        0 <= r < m,
        0 <= c < n,
    ensures
        is_vertex(n, m, r * n + c),
        (r * n + c) % n == c,
        (r * n + c) / n == r,
        (r * n + c < n) == (r == 0),
        (r * n + c >= n * m - n) == (r == m - 1),
        on_rim(n, m, r * n + c) == (r == 0 || r == m - 1 || c == 0 || c == n - 1),
{
    let v = r * n + c;
    lemma_fundamental_div_mod_converse(v, n, r, c);
    lemma_row_order(n, 0, r);
    lemma_row_order(n, r, m - 1);
    lemma_row_shift(n, m - 1);
    assert(m * n == n * m) by (nonlinear_arith);
    if r >= 1 {
        lemma_row_order(n, 1, r);
    }
    if r <= m - 2 {
        lemma_row_order(n, r, m - 2);
        lemma_row_shift(n, m - 2);
    }
}

/// Row and column of a vertex.
pub proof fn lemma_coords(n: int, m: int, v: int)
    requires
        n >= 1,
        m >= 1,
        is_vertex(n, m, v),
    ensures
        0 <= v / n < m,
        0 <= v % n < n,
        v == (v / n) * n + v % n,
{
    lemma_fundamental_div_mod(v, n);
    lemma_mod_bound(v, n);
    let q = v / n;
    let r = v % n;
    assert(v == q * n + r) by (nonlinear_arith)
        requires
            v == n * q + r,
    ;
    assert(0 <= q < m) by (nonlinear_arith)
        requires
            v == q * n + r,
            0 <= r < n,
            0 <= v < n * m,
            n >= 1,
    ;
}

/// Size facts that hold of every grid with at least two rows and two columns.
pub proof fn lemma_grid_size(n: int, m: int)
    requires
        n >= 2,
        m >= 2,
    ensures
        n * m >= 2 * n,
        n * m >= 2 * m,
        n * m >= 4,
        rim_len(n, m) >= 4,
        rim_len(n, m) <= n * m,
{
    assert(n * m >= 2 * n && n * m >= 2 * m) by (nonlinear_arith)
        requires
            n >= 2,
            m >= 2,
    ;
    assert(2 * n + 2 * m - 4 <= n * m) by (nonlinear_arith)
        requires
            n >= 2,
            m >= 2,
    ;
}

/// Coordinates of the boundary vertices stay inside the grid and on its boundary.
pub proof fn lemma_rim_at(n: int, m: int, k: int)
    requires
        n >= 2,
        m >= 2,
        0 <= k < rim_len(n, m),
    ensures
        0 <= rim_row(n, m, k) < m,
        0 <= rim_col(n, m, k) < n,
        on_rim(n, m, rim_at(n, m, k)),
        rim_at(n, m, k) % n == rim_col(n, m, k),
        rim_at(n, m, k) / n == rim_row(n, m, k),
{
    lemma_place(n, m, rim_row(n, m, k), rim_col(n, m, k));
}

/// The walk around the boundary starts at vertex `0` and ends at vertex `n`,
/// right below it.
pub proof fn lemma_rim_ends(n: int, m: int)
    requires
        n >= 2,
        m >= 2,
    ensures
        rim_at(n, m, 0) == 0,
        rim_at(n, m, rim_len(n, m) - 1) == n,
{
    assert(0 * n == 0) by (nonlinear_arith);
    assert(1 * n == n) by (nonlinear_arith);
}

/// No vertex occurs twice in the walk around the boundary.
pub proof fn lemma_rim_at_injective(n: int, m: int, j: int, k: int)
    requires
        n >= 2,
        m >= 2,
        0 <= j < rim_len(n, m),
        0 <= k < rim_len(n, m),
        rim_at(n, m, j) == rim_at(n, m, k),
    ensures
        j == k,
{
    lemma_rim_at(n, m, j);
    lemma_rim_at(n, m, k);
}

/// Each step of the walk around the boundary is the clockwise step, and the
/// step after the last one leads back to vertex `0`.
pub proof fn lemma_rim_step(n: int, m: int, k: int)
    requires
        n >= 2,
        m >= 2,
        0 <= k < rim_len(n, m),
    ensures
        clockwise_next(n, m, rim_at(n, m, k)) == (if k + 1 < rim_len(n, m) {
            rim_at(n, m, k + 1)
        } else {
            0
        }),
        adjacent(n, m, rim_at(n, m, k), clockwise_next(n, m, rim_at(n, m, k))),
{
    let r = rim_row(n, m, k);
    let c = rim_col(n, m, k);
    let v = rim_at(n, m, k);
    lemma_place(n, m, r, c);
    lemma_row_shift(n, r);
    lemma_grid_size(n, m);
    lemma_place(n, m, m - 1, n - 1);
    lemma_place(n, m, m - 1, 0);
    lemma_row_shift(n, m - 1);
    assert(m * n == n * m) by (nonlinear_arith);
    assert(0 * n == 0) by (nonlinear_arith);
    if k + 1 < rim_len(n, m) {
        lemma_place(n, m, rim_row(n, m, k + 1), rim_col(n, m, k + 1));
    } else {
        lemma_place(n, m, 0, 0);
        assert(r == 1 && c == 0);
        assert(1 * n == n) by (nonlinear_arith);
    }
    if r == 0 && c < n - 1 {
        assert(v == c);
        lemma_place(n, m, 0, c + 1);
    } else if c == n - 1 && r < m - 1 {
        lemma_place(n, m, r + 1, c);
    } else if r == m - 1 && c > 0 {
        lemma_place(n, m, r, c - 1);
    } else {
        lemma_place(n, m, r - 1, c);
    }
}

/// What lies around a vertex off the boundary: all eight surrounding positions
/// are vertices, and the four lattice neighbours are adjacent to it.
pub proof fn lemma_interior(n: int, m: int, v: int)
    requires
        n >= 2,
        m >= 2,
        interior(n, m, v),
    ensures
        n >= 3,
        m >= 3,
        n + 1 <= v,
        v + n + 1 < n * m,
        adjacent(n, m, v, v - n),
        adjacent(n, m, v, v + n),
        adjacent(n, m, v, v - 1),
        adjacent(n, m, v, v + 1),
        adjacent(n, m, v - n, v),
        adjacent(n, m, v + n, v),
        adjacent(n, m, v - 1, v),
        adjacent(n, m, v + 1, v),
        (v - 1) % n == v % n - 1,
        (v + 1) % n == v % n + 1,
        (v - n) % n == v % n,
        (v + n) % n == v % n,
{
    lemma_coords(n, m, v);
    let r = v / n;
    let c = v % n;
    lemma_place(n, m, r, c);
    lemma_row_shift(n, r);
    lemma_place(n, m, r - 1, c - 1);
    lemma_place(n, m, r + 1, c + 1);
    lemma_place(n, m, r, c - 1);
    lemma_place(n, m, r, c + 1);
    lemma_place(n, m, r - 1, c);
    lemma_place(n, m, r + 1, c);
}

/// A boundary vertex has at most one neighbour off the boundary.
pub proof fn lemma_single_inner_neighbor(n: int, m: int, r: int, a: int, b: int)
    requires
        n >= 2,
        m >= 2,
        on_rim(n, m, r),
        interior(n, m, a),
        interior(n, m, b),
        adjacent(n, m, r, a),
        adjacent(n, m, r, b),
    ensures
        a == b,
{
    lemma_interior(n, m, a);
    lemma_interior(n, m, b);
    lemma_coords(n, m, r);
    lemma_place(n, m, r / n, r % n);
}

/// Adjacency does not depend on the direction.
pub proof fn lemma_adjacent_symmetric(n: int, m: int, a: int, b: int)
    ensures
        adjacent(n, m, a, b) == adjacent(n, m, b, a),
{
}

/// Column of the vertex to the left, the right, above and below.
pub proof fn lemma_columns(n: int, m: int, x: int)
    requires
        n >= 2,
        m >= 2,
        is_vertex(n, m, x),
    ensures
        0 <= x % n < n,
        x % n > 0 ==> is_vertex(n, m, x - 1) && (x - 1) % n == x % n - 1,
        x % n < n - 1 ==> is_vertex(n, m, x + 1) && (x + 1) % n == x % n + 1,
        x % n == 0 ==> x - 1 < 0 || (x - 1) % n == n - 1,
        x % n == n - 1 ==> (x + 1) % n == 0,
        x >= n ==> is_vertex(n, m, x - n) && (x - n) % n == x % n,
        x + n < n * m ==> is_vertex(n, m, x + n) && (x + n) % n == x % n,
        x - x % n + n <= n * m,
        x + n >= n * m ==> x - x % n + n == n * m,
        x < n ==> x % n == x,
{
    lemma_coords(n, m, x);
    let r = x / n;
    let c = x % n;
    lemma_row_shift(n, r);
    lemma_place(n, m, r, c);
    if c > 0 {
        lemma_place(n, m, r, c - 1);
    }
    if c < n - 1 {
        lemma_place(n, m, r, c + 1);
    }
    if c == 0 && r > 0 {
        assert(x - 1 == (r - 1) * n + (n - 1));
        lemma_fundamental_div_mod_converse(x - 1, n, r - 1, n - 1);
    }
    if c == n - 1 {
        lemma_fundamental_div_mod_converse(x + 1, n, r + 1, 0);
    }
    if r > 0 {
        lemma_place(n, m, r - 1, c);
    }
    if r < m - 1 {
        lemma_place(n, m, r + 1, c);
    }
    assert(0 * n == 0) by (nonlinear_arith);
    lemma_place(n, m, r, 0);
    lemma_place(n, m, m - 1, 0);
    lemma_row_shift(n, m - 1);
    assert(m * n == n * m) by (nonlinear_arith);
    lemma_row_order(n, r, m - 1);
}

/// The place of a boundary vertex in the walk around the boundary.
pub open spec fn rim_index(n: int, m: int, v: int) -> int {
    let r = v / n;
    let c = v % n;
    if r == 0 {
        c
    } else if c == n - 1 {
        n - 1 + r
    } else if r == m - 1 {
        2 * n + m - 3 - c
    } else {
        2 * n + 2 * m - 4 - r
    }
}

/// The walk around the boundary meets every boundary vertex.
pub proof fn lemma_rim_index(n: int, m: int, v: int)
    requires
        n >= 2,
        m >= 2,
        on_rim(n, m, v),
    ensures
        0 <= rim_index(n, m, v) < rim_len(n, m),
        rim_at(n, m, rim_index(n, m, v)) == v,
{
    lemma_coords(n, m, v);
    lemma_place(n, m, v / n, v % n);
}

/// The two lattice neighbours of a corner of the grid.
pub open spec fn corner_neighbors(n: int, m: int, c: int) -> (int, int) {
    if c == 0 {
        (1, n)
    } else if c == n - 1 {
        (n - 2, 2 * n - 1)
    } else if c == n * m - n {
        (n * m - 2 * n, n * m - n + 1)
    } else {
        (n * m - n - 1, n * m - 2)
    }
}

/// A corner has exactly two lattice neighbours.
pub proof fn lemma_corner_neighbors(n: int, m: int, c: int, x: int)
    requires
        n >= 2,
        m >= 2,
        is_corner(n, m, c),
    ensures
        adjacent(n, m, c, x) <==> (x == corner_neighbors(n, m, c).0 || x == corner_neighbors(
            n,
            m,
            c,
        ).1),
        corner_neighbors(n, m, c).0 != corner_neighbors(n, m, c).1,
        is_vertex(n, m, c),
{
    lemma_grid_size(n, m);
    lemma_place(n, m, 0, 0);
    lemma_place(n, m, 0, 1);
    lemma_place(n, m, 0, n - 1);
    lemma_place(n, m, 0, n - 2);
    lemma_place(n, m, 1, 0);
    lemma_place(n, m, 1, n - 1);
    lemma_place(n, m, m - 1, 0);
    lemma_place(n, m, m - 1, 1);
    lemma_place(n, m, m - 1, n - 1);
    lemma_place(n, m, m - 1, n - 2);
    lemma_place(n, m, m - 2, 0);
    lemma_place(n, m, m - 2, n - 1);
    lemma_row_shift(n, m - 1);
    lemma_row_shift(n, 1);
    assert(m * n == n * m) by (nonlinear_arith);
    assert(0 * n == 0) by (nonlinear_arith);
    assert(1 * n == n) by (nonlinear_arith);
}

} // verus!
