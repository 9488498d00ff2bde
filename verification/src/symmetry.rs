//! A grid and the grid with rows and columns exchanged have equally many
//! tours, and the search finds equally many on both.

use crate::clockwise::{closed_tours, is_clockwise_tour};
use crate::complete::{
    lemma_accepted_are_the_clockwise_tours,
    lemma_accepted_paths_are_the_closed_tours,
    lemma_ends_below_start,
};
use crate::enumeration::lemma_tours_are_the_accepted_paths;
use crate::grid::{
    grid_fits,
    is_vertex,
    lemma_adjacent_symmetric,
    lemma_grid_size,
    lemma_place,
};
use crate::rules::{accepted_paths, search_outcome};
use crate::tour::{
    after,
    joined_onward,
    lemma_all_visited,
    lemma_transposed_adjacent,
    lemma_transposed_vertex,
    transposed,
};
use vstd::prelude::*;
use vstd::relations::injective_on;
use vstd::set_lib::lemma_map_size;

verus! {

/// The position of `t` whose vertex comes to position `k` when the tour is
/// walked the other way round from its start.
pub open spec fn turned(t: Seq<usize>, k: int) -> int {
    if k == 0 {
        0
    } else {
        t.len() - k
    }
}

/// The tour `t` carried over to the grid with rows and columns exchanged,
/// and walked the other way round, so that it sets out to vertex `1` again.
pub open spec fn flipped(n: int, m: int, t: Seq<usize>) -> Seq<usize> {
    Seq::new(t.len(), |k: int| transposed(n, m, t[turned(t, k)] as int) as usize)
}

/// Flipping a clockwise tour gives a clockwise tour of the grid with rows
/// and columns exchanged, and flipping that one gives the first back.
pub proof fn lemma_flipped_tour(n: int, m: int, t: Seq<usize>)
    requires
        grid_fits(n, m),
        is_clockwise_tour(n, m, t),
    ensures
        is_clockwise_tour(m, n, flipped(n, m, t)),
        flipped(m, n, flipped(n, m, t)) == t,
{
    let f = flipped(n, m, t);
    let len = t.len() as int;
    lemma_grid_size(n, m);
    lemma_ends_below_start(n, m, t);
    assert(m * n == n * m) by (nonlinear_arith);
    assert forall|k: int| 0 <= k < len implies is_vertex(n, m, #[trigger] t[k] as int) by {
        assert(joined_onward(n, m, t, k));
    }
    assert forall|k: int| 0 <= k < len implies is_vertex(m, n, #[trigger] f[k] as int)
        && transposed(m, n, f[k] as int) == t[turned(t, k)] by {
        assert(is_vertex(n, m, t[turned(t, k)] as int));
        lemma_transposed_vertex(n, m, t[turned(t, k)] as int);
    }
    assert forall|j: int, k: int| 0 <= j < k < len implies #[trigger] f[j] != #[trigger] f[k] by {
        assert(transposed(m, n, f[j] as int) == t[turned(t, j)]);
        assert(transposed(m, n, f[k] as int) == t[turned(t, k)]);
        if j == 0 {
            assert(t[0] != t[turned(t, k)]);
        } else {
            assert(t[turned(t, k)] != t[turned(t, j)]);
        }
    }
    lemma_all_visited(m, n, f);
    assert forall|k: int| 0 <= k < len implies #[trigger] joined_onward(m, n, f, k) by {
        let here = turned(t, k);
        let there = if k + 1 < len {
            turned(t, k + 1)
        } else {
            0
        };
        assert(after(f, k) == f[if k + 1 < len {
            k + 1
        } else {
            0
        }]);
        assert(joined_onward(n, m, t, there));
        assert(after(t, there) == t[here]);
        lemma_adjacent_symmetric(n, m, t[there] as int, t[here] as int);
        lemma_transposed_adjacent(n, m, t[here] as int, t[there] as int);
    }
    assert(f[0] == 0);
    assert(f[1] == 1) by {
        lemma_place(n, m, 1, 0);
        assert(1 * n == n) by (nonlinear_arith);
        assert(0 * m == 0) by (nonlinear_arith);
    }
    assert(flipped(m, n, f) =~= t) by {
        assert forall|k: int| 0 <= k < len implies flipped(m, n, f)[k] == t[k] by {
            assert(transposed(m, n, f[turned(f, k)] as int) == t[turned(t, turned(f, k))]);
        }
    }
}

/// A grid has as many closed tours as the grid with rows and columns
/// exchanged, and the search reports as many on the one as on the other.
pub proof fn lemma_counts_agree(n: int, m: int)
    requires
        grid_fits(n, m),
    ensures
        closed_tours(n, m).len() == closed_tours(m, n).len(),
        accepted_paths(n, m).len() == accepted_paths(m, n).len(),
        search_outcome(n, m).tours.len() == search_outcome(m, n).tours.len(),
{
    lemma_accepted_paths_are_the_closed_tours(n, m);
    lemma_accepted_paths_are_the_closed_tours(m, n);
    let here = accepted_paths(n, m);
    let there = accepted_paths(m, n);
    let flip = |t: Seq<usize>| flipped(n, m, t);
    assert(m * n == n * m) by (nonlinear_arith);
    lemma_tours_are_the_accepted_paths(n, m);
    lemma_tours_are_the_accepted_paths(m, n);
    assert forall|t: Seq<usize>| here.contains(t) implies is_clockwise_tour(n, m, t)
        && there.contains(#[trigger] flip(t)) && flipped(m, n, flip(t)) == t by {
        lemma_accepted_are_the_clockwise_tours(n, m, t);
        lemma_flipped_tour(n, m, t);
        lemma_accepted_are_the_clockwise_tours(m, n, flipped(n, m, t));
    }
    assert(injective_on(flip, here)) by {
        assert forall|a: Seq<usize>, b: Seq<usize>|
            here.contains(a) && here.contains(b) && #[trigger] flip(a) == #[trigger] flip(
                b,
            ) implies a == b by {
            assert(flipped(m, n, flip(a)) == a);
            assert(flipped(m, n, flip(b)) == b);
        }
    }
    assert(here.map(flip) =~= there) by {
        assert forall|u: Seq<usize>| there.contains(u) implies here.map(flip).contains(u) by {
            let back = flipped(m, n, u);
            lemma_accepted_are_the_clockwise_tours(m, n, u);
            lemma_flipped_tour(m, n, u);
            lemma_accepted_are_the_clockwise_tours(n, m, back);
            assert(here.contains(back) && u == flip(back));
        }
    }
    lemma_map_size(here, there, flip);
}

} // verus!
