//! What holds of every search and of every count.

use crate::board::{valid_dims, BoardError};
use crate::enumeration::lemma_tours_are_the_accepted_paths;
use crate::clockwise::{closed_tours, is_clockwise_tour};
use crate::complete::lemma_accepted_paths_are_the_closed_tours;
use crate::existence::lemma_even_grids_have_tours;
use crate::grid::{grid_fits, MAX_VERTICES};
use crate::symmetry::lemma_counts_agree;
use crate::tour::lemma_closed_tours_need_even_grids;
use crate::metrics::Metrics;
use crate::search::{is_search_result, reported_count, tour_count};
use crate::thin::lemma_thin_grids_have_one_tour;
use vstd::prelude::*;

verus! {

/// Searching a grid twice gives the same result: the same refusal, or
/// metrics with the same counters.
pub proof fn lemma_search_is_deterministic(
    n: int,
    m: int,
    first: Result<Metrics, BoardError>,
    second: Result<Metrics, BoardError>,
)
    requires
        is_search_result(n, m, first),
        is_search_result(n, m, second),
    ensures
        match (first, second) {
            (Ok(a), Ok(b)) => a.same_counters(b),
            (Err(a), Err(b)) => a == b,
            _ => false,
        },
{
}

/// Counting the tours of a grid twice gives the same number.
pub proof fn lemma_count_is_deterministic(n: int, m: int, first: Option<i64>, second: Option<i64>)
    requires
        first == reported_count(n, m),
        second == reported_count(n, m),
    ensures
        first == second,
{
}

/// The tour count of a grid does not depend on which of its dimensions is
/// taken for the number of columns: a grid has as many closed tours as the
/// grid with rows and columns exchanged.
pub proof fn lemma_count_is_symmetric(n: int, m: int)
    ensures
        tour_count(n, m) == tour_count(m, n),
        reported_count(n, m) == reported_count(m, n),
{
    assert(n * m == m * n) by (nonlinear_arith);
    if n >= 2 && m >= 2 && n * m <= MAX_VERTICES {
        lemma_counts_agree(n, m);
    }
}

/// Wherever the tour count of a grid with at least two rows and two columns
/// is known, it is the number of closed tours of that grid.
pub proof fn lemma_count_is_the_number_of_closed_tours(n: int, m: int)
    requires
        grid_fits(n, m),
    ensures
        tour_count(n, m) matches Some(count) ==> count == closed_tours(n, m).len(),
{
    assert(n * m == m * n) by (nonlinear_arith);
    if (n * m) % 2 == 1 {
        assert forall|t: Seq<usize>| !closed_tours(n, m).contains(t) by {
            if is_clockwise_tour(n, m, t) {
                lemma_closed_tours_need_even_grids(n, m, t);
            }
        }
        assert(closed_tours(n, m) =~= Set::<Seq<usize>>::empty());
    }
}

/// The tour count of a grid with an odd number of vertices is zero, whatever
/// its size.
pub proof fn lemma_odd_grids_have_no_tour(n: int, m: int)
    requires
        (n * m) % 2 == 1,
    ensures
        tour_count(n, m) == Some(0nat),
        reported_count(n, m) == Some(0i64),
{
    assert(n * m == m * n) by (nonlinear_arith);
}

/// A grid of two by `m` vertices has exactly one tour, whichever dimension
/// is taken for the number of columns.
pub proof fn lemma_two_column_grids_have_one_tour(m: int)
    requires
        2 <= m,
        2 * m <= MAX_VERTICES,
    ensures
        tour_count(2, m) == Some(1nat),
        tour_count(m, 2) == Some(1nat),
{
    lemma_thin_grids_have_one_tour(2, m);
    lemma_tours_are_the_accepted_paths(2, m);
    lemma_accepted_paths_are_the_closed_tours(2, m);
    lemma_counts_agree(2, m);
}

/// Every grid that has a board has a closed tour.
pub proof fn lemma_every_board_has_a_tour(n: int, m: int)
    requires
        valid_dims(n, m),
    ensures
        tour_count(n, m) matches Some(count) && count >= 1,
        reported_count(n, m) matches Some(count) && count >= 1,
{
    lemma_even_grids_have_tours(n, m);
}

} // verus!
