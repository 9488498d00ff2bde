//! Every grid with an even number of vertices has a closed tour.
//!
//! Where the number of rows is even, a tour is written down: along the top
//! row, then to and fro through the rows below without touching the first
//! column, and back up the first column. Where only the number of columns is
//! even, the same tour of the grid with rows and columns exchanged is
//! flipped over.

use crate::board::lemma_odd_product;
use crate::clockwise::{closed_tours, is_clockwise_tour};
use crate::complete::lemma_accepted_paths_are_the_closed_tours;
use crate::enumeration::lemma_tours_are_the_accepted_paths;
use crate::grid::{
    adjacent,
    grid_fits,
    is_vertex,
    lemma_coords,
    lemma_grid_size,
    lemma_place,
    lemma_row_shift,
};
use crate::symmetry::{flipped, lemma_flipped_tour};
use crate::tour::{joined_onward, lemma_all_visited};
use vstd::arithmetic::div_mod::lemma_fundamental_div_mod_converse;
use vstd::prelude::*;

verus! {

/// Row of the vertex at position `k` of the written tour of the grid with
/// `a` columns and `b` rows.
pub open spec fn comb_row(a: int, b: int, k: int) -> int {
    let w = a - 1;
    if k < a {
        0
    } else if k < a + (b - 1) * w {
        1 + (k - a) / w
    } else {
        b - 1 - (k - a - (b - 1) * w)
    }
}

/// Column of the vertex at position `k` of the written tour.
pub open spec fn comb_col(a: int, b: int, k: int) -> int {
    let w = a - 1;
    if k < a {
        k
    } else if k < a + (b - 1) * w {
        if (1 + (k - a) / w) % 2 == 1 {
            a - 1 - (k - a) % w
        } else {
            1 + (k - a) % w
        }
    } else {
        0
    }
}

/// The vertex at position `k` of the written tour.
pub open spec fn comb_at(a: int, b: int, k: int) -> int {
    comb_row(a, b, k) * a + comb_col(a, b, k)
}

/// The written tour of the grid with `a` columns and `b` rows.
pub open spec fn comb(a: int, b: int) -> Seq<usize> {
    Seq::new((a * b) as nat, |k: int| comb_at(a, b, k) as usize)
}

/// The position of the vertex in row `r` and column `c` on the written tour.
pub open spec fn comb_index(a: int, b: int, r: int, c: int) -> int {
    let w = a - 1;
    if r == 0 {
        c
    } else if c == 0 {
        a + (b - 1) * w + (b - 1 - r)
    } else if r % 2 == 1 {
        a + (r - 1) * w + (a - 1 - c)
    } else {
        a + (r - 1) * w + (c - 1)
    }
}

/// The three stretches of the written tour take up the whole grid.
proof fn lemma_comb_size(a: int, b: int)
    requires
        grid_fits(a, b),
    ensures
        a + (b - 1) * (a - 1) + (b - 1) == a * b,
        (b - 1) * (a - 1) >= 1,
{
    assert(a + (b - 1) * (a - 1) + (b - 1) == a * b) by (nonlinear_arith);
    assert((b - 1) * (a - 1) >= 1) by (nonlinear_arith)
        requires
            a >= 2,
            b >= 2,
    ;
}

/// Where the written tour stands at position `k`.
proof fn lemma_comb_place(a: int, b: int, k: int)
    requires
        grid_fits(a, b),
        0 <= k < a * b,
    ensures
        0 <= comb_row(a, b, k) < b,
        0 <= comb_col(a, b, k) < a,
        is_vertex(a, b, comb_at(a, b, k)),
        comb_at(a, b, k) / a == comb_row(a, b, k),
        comb_at(a, b, k) % a == comb_col(a, b, k),
        comb_index(a, b, comb_row(a, b, k), comb_col(a, b, k)) == k,
        a <= k < a + (b - 1) * (a - 1) ==> comb_col(a, b, k) >= 1,
{
    let w = a - 1;
    lemma_comb_size(a, b);
    if a <= k < a + (b - 1) * w {
        assert(w * (b - 1) == (b - 1) * w) by (nonlinear_arith);
        lemma_coords(w, b - 1, k - a);
    }
    lemma_place(a, b, comb_row(a, b, k), comb_col(a, b, k));
}

/// Two vertices side by side in a row, or one below the other in a column,
/// are joined by a lattice segment.
proof fn lemma_cells_adjacent(n: int, m: int, r1: int, c1: int, r2: int, c2: int)
    requires
        n >= 1,
        m >= 1,
        0 <= r1 < m,
        0 <= r2 < m,
        0 <= c1 < n,
        0 <= c2 < n,
        (r1 == r2 && (c1 == c2 + 1 || c2 == c1 + 1)) || (c1 == c2 && (r1 == r2 + 1 || r2 == r1 + 1)),
    ensures
        adjacent(n, m, r1 * n + c1, r2 * n + c2),
{
    lemma_place(n, m, r1, c1);
    lemma_place(n, m, r2, c2);
    lemma_row_shift(n, r1);
}

/// Each vertex of the written tour is joined to the next, the last to the first.
proof fn lemma_comb_steps(a: int, b: int, k: int)
    requires
        grid_fits(a, b),
        b % 2 == 0,
        0 <= k < a * b,
    ensures
        adjacent(a, b, comb_at(a, b, k), comb_at(a, b, if k + 1 < a * b {
            k + 1
        } else {
            0
        })),
{
    let w = a - 1;
    let next = if k + 1 < a * b {
        k + 1
    } else {
        0
    };
    lemma_comb_size(a, b);
    lemma_comb_place(a, b, k);
    lemma_comb_place(a, b, next);
    assert(w * (b - 1) == (b - 1) * w) by (nonlinear_arith);
    let r = comb_row(a, b, k);
    let c = comb_col(a, b, k);
    let r2 = comb_row(a, b, next);
    let c2 = comb_col(a, b, next);
    if k + 1 < a {
        assert(r == 0 && r2 == 0 && c2 == c + 1);
    } else if k == a - 1 {
        lemma_fundamental_div_mod_converse(0, w, 0, 0);
        assert(r == 0 && c == a - 1);
        assert(r2 == 1 && c2 == a - 1);
    } else if k < a + (b - 1) * w {
        let j = k - a;
        lemma_coords(w, b - 1, j);
        if k + 1 < a + (b - 1) * w {
            if j % w + 1 < w {
                lemma_fundamental_div_mod_converse(j + 1, w, j / w, j % w + 1);
                assert(r2 == r);
                assert(c2 == c + 1 || c == c2 + 1);
            } else {
                lemma_row_shift(w, j / w);
                lemma_fundamental_div_mod_converse(j + 1, w, j / w + 1, 0);
                assert(r2 == r + 1);
                assert(c2 == c);
            }
        } else {
            assert(j / w == b - 2 && j % w == w - 1) by {
                lemma_row_shift(w, b - 2);
                lemma_fundamental_div_mod_converse(j, w, b - 2, w - 1);
            }
            assert(r == b - 1);
            assert(c == 1);
            assert(r2 == b - 1 && c2 == 0);
        }
    } else if k + 1 < a * b {
        assert(c == 0 && c2 == 0 && r == r2 + 1);
    } else {
        assert(0 * a == 0) by (nonlinear_arith);
        assert(r == 1 && c == 0);
        assert(r2 == 0 && c2 == 0);
    }
    lemma_cells_adjacent(
        a,
        b,
        comb_row(a, b, k),
        comb_col(a, b, k),
        comb_row(a, b, next),
        comb_col(a, b, next),
    );
}

/// On a grid with an even number of rows the written tour is a closed tour
/// that sets out from vertex `0` to vertex `1`.
pub proof fn lemma_comb_is_a_tour(a: int, b: int)
    requires
        grid_fits(a, b),
        b % 2 == 0,
    ensures
        is_clockwise_tour(a, b, comb(a, b)),
{
    let t = comb(a, b);
    lemma_grid_size(a, b);
    assert forall|k: int| 0 <= k < t.len() implies is_vertex(a, b, #[trigger] t[k] as int) by {
        lemma_comb_place(a, b, k);
    }
    assert forall|j: int, k: int| 0 <= j < k < t.len() implies #[trigger] t[j] != #[trigger] t[k] by {
        lemma_comb_place(a, b, j);
        lemma_comb_place(a, b, k);
    }
    lemma_all_visited(a, b, t);
    assert forall|k: int| 0 <= k < t.len() implies #[trigger] joined_onward(a, b, t, k) by {
        lemma_comb_place(a, b, k);
        lemma_comb_place(a, b, if k + 1 < a * b {
            k + 1
        } else {
            0
        });
        lemma_comb_steps(a, b, k);
    }
    assert(0 * a == 0) by (nonlinear_arith);
}

/// Every grid with an even number of vertices has a closed tour.
pub proof fn lemma_even_grids_have_tours(n: int, m: int)
    requires
        grid_fits(n, m),
        (n * m) % 2 == 0,
    ensures
        closed_tours(n, m).finite(),
        closed_tours(n, m).len() >= 1,
{
    lemma_tours_are_the_accepted_paths(n, m);
    lemma_accepted_paths_are_the_closed_tours(n, m);
    assert(m * n == n * m) by (nonlinear_arith);
    let t = if m % 2 == 0 {
        comb(n, m)
    } else {
        flipped(m, n, comb(m, n))
    };
    if m % 2 == 0 {
        lemma_comb_is_a_tour(n, m);
    } else {
        lemma_odd_product(n, m);
        lemma_comb_is_a_tour(m, n);
        lemma_flipped_tour(m, n, comb(m, n));
    }
    assert(closed_tours(n, m).contains(t));
    assert(closed_tours(n, m).remove(t).len() >= 0);
}

} // verus!
