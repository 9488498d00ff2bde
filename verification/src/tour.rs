//! Closed tours of a grid, and why every accepted path is one.

use crate::enumeration::{
    lemma_reachable_prefix,
    lemma_reported_tours_are_the_accepted_paths,
};
use crate::grid::{
    adjacent,
    corner_neighbors,
    grid_fits,
    is_corner,
    is_vertex,
    lemma_adjacent_symmetric,
    lemma_coords,
    lemma_corner_neighbors,
    lemma_grid_size,
    lemma_place,
    lemma_rim_at,
    lemma_rim_at_injective,
    lemma_rim_ends,
    lemma_rim_step,
    lemma_row_shift,
    on_rim,
    rim_at,
    rim_len,
};
use crate::rules::{
    accepted,
    extends,
    lemma_rim_count_bound,
    lemma_rim_count_push,
    reachable,
    rim_count,
    search_outcome,
    seen,
};
use vstd::arithmetic::div_mod::lemma_fundamental_div_mod_converse;
use vstd::prelude::*;
use vstd::set_lib::{lemma_int_range, lemma_len_subset, lemma_subset_equality, set_int_range};

verus! {

/// The vertex at position `k` of `q` is joined to the one before it.
pub open spec fn joined(n: int, m: int, q: Seq<usize>, k: int) -> bool {
    adjacent(n, m, q[k - 1] as int, q[k] as int)
}

/// The path walks in step with the boundary: its vertices are distinct
/// vertices of the grid, each next to the one before it, and each boundary
/// vertex on it is the one that the walk around the boundary had come to.
pub open spec fn in_step(n: int, m: int, q: Seq<usize>) -> bool {
    &&& forall|k: int| 0 <= k < q.len() ==> is_vertex(n, m, #[trigger] q[k] as int)
    &&& forall|j: int, k: int| 0 <= j < k < q.len() ==> #[trigger] q[j] != #[trigger] q[k]
    &&& forall|k: int| 1 <= k < q.len() ==> #[trigger] joined(n, m, q, k)
    &&& forall|k: int|
        0 <= k < q.len() && on_rim(n, m, #[trigger] q[k] as int) ==> rim_count(n, m, q.take(k))
            < rim_len(n, m) && q[k] == rim_at(n, m, rim_count(n, m, q.take(k)))
}

/// Every path that the search reaches walks in step with the boundary.
pub proof fn lemma_reachable_in_step(n: int, m: int, q: Seq<usize>)
    requires
        grid_fits(n, m),
        reachable(n, m, q),
    ensures
        in_step(n, m, q),
    decreases q.len(),
{
    lemma_grid_size(n, m);
    lemma_rim_ends(n, m);
    if q.len() == 1 {
        assert(q.take(0) =~= Seq::<usize>::empty());
    } else {
        let last = q.len() - 1;
        let p = q.take(last);
        let i = q[last];
        let v = p.last();
        lemma_reachable_prefix(n, m, q, last);
        lemma_reachable_in_step(n, m, p);
        assert(extends(n, m, q.take(last), q[last] as int));
        assert forall|k: int| 0 <= k < q.len() implies is_vertex(n, m, #[trigger] q[k] as int) by {
            if k < last {
                assert(q[k] == p[k]);
            }
        }
        assert forall|j: int, k: int| 0 <= j < k < q.len() implies #[trigger] q[j]
            != #[trigger] q[k] by {
            assert(q[j] == p[j]);
            if k < last {
                assert(q[k] == p[k]);
            }
        }
        assert forall|k: int| 1 <= k < q.len() implies #[trigger] joined(n, m, q, k) by {
            assert(q[k - 1] == p[k - 1]);
            if k < last {
                assert(q[k] == p[k]);
                assert(joined(n, m, p, k));
            }
        }
        assert forall|k: int| 0 <= k < q.len() && on_rim(n, m, #[trigger] q[k] as int) implies
            rim_count(n, m, q.take(k)) < rim_len(n, m) && q[k] == rim_at(
            n,
            m,
            rim_count(n, m, q.take(k)),
        ) by {
            if k < last {
                assert(q[k] == p[k]);
                assert(q.take(k) =~= p.take(k));
            } else if on_rim(n, m, v as int) {
                let before = p.take(last - 1);
                let kv = rim_count(n, m, before);
                assert(p[last - 1] == v);
                assert(before.push(v) =~= p);
                lemma_rim_count_push(n, m, before, v);
                lemma_rim_step(n, m, kv);
                if kv + 1 >= rim_len(n, m) {
                    assert(p[0] == 0);
                    assert(seen(p, 0));
                }
            }
        }
    }
}

/// A path of distinct vertices that is as long as the grid has vertices
/// visits every vertex.
pub proof fn lemma_all_visited(n: int, m: int, t: Seq<usize>)
    requires
        grid_fits(n, m),
        t.len() == n * m,
        forall|k: int| 0 <= k < t.len() ==> is_vertex(n, m, #[trigger] t[k] as int),
        forall|j: int, k: int| 0 <= j < k < t.len() ==> #[trigger] t[j] != #[trigger] t[k],
    ensures
        forall|x: int| is_vertex(n, m, x) ==> seen(t, x),
{
    let numbers = t.map_values(|x: usize| x as int);
    let all = set_int_range(0, n * m);
    assert(numbers.no_duplicates()) by {
        assert forall|j: int, k: int|
            0 <= j < numbers.len() && 0 <= k < numbers.len() && j != k implies numbers[j]
            != numbers[k] by {
            if j < k {
                assert(t[j] != t[k]);
            } else {
                assert(t[k] != t[j]);
            }
        }
    }
    numbers.unique_seq_to_set();
    lemma_int_range(0, n * m);
    assert(numbers.to_set().subset_of(all)) by {
        assert forall|x: int| numbers.to_set().contains(x) implies all.contains(x) by {
            let k = choose|k: int| 0 <= k < numbers.len() && numbers[k] == x;
            assert(is_vertex(n, m, t[k] as int));
        }
    }
    lemma_len_subset(numbers.to_set(), all);
    lemma_subset_equality(numbers.to_set(), all);
    assert forall|x: int| is_vertex(n, m, x) implies seen(t, x) by {
        assert(all.contains(x));
        assert(numbers.to_set().contains(x));
        let k = choose|k: int| 0 <= k < numbers.len() && numbers[k] == x;
        assert(t[k] == x);
    }
}

/// The vertex that follows position `k` when `t` is walked as a closed loop.
pub open spec fn after(t: Seq<usize>, k: int) -> int {
    if k + 1 < t.len() {
        t[k + 1] as int
    } else {
        t[0] as int
    }
}

/// The vertex that comes before position `k` when `t` is walked as a closed loop.
pub open spec fn before(t: Seq<usize>, k: int) -> int {
    if k > 0 {
        t[k - 1] as int
    } else {
        t[t.len() - 1] as int
    }
}

/// The vertex at position `k` of `t` is joined to the one that follows it in
/// the closed loop.
pub open spec fn joined_onward(n: int, m: int, t: Seq<usize>, k: int) -> bool {
    adjacent(n, m, t[k] as int, after(t, k))
}

/// `t` is a closed tour of the grid: it visits every vertex, none of them
/// twice, and each of its vertices is joined by a lattice segment to the one
/// that follows it, the last to the first.
pub open spec fn is_closed_tour(n: int, m: int, t: Seq<usize>) -> bool {
    &&& t.len() == n * m
    &&& forall|x: int| is_vertex(n, m, x) ==> seen(t, x)
    &&& forall|j: int, k: int| 0 <= j < k < t.len() ==> #[trigger] t[j] != #[trigger] t[k]
    &&& forall|k: int| 0 <= k < t.len() ==> #[trigger] joined_onward(n, m, t, k)
}

/// An accepted path ends right below the start vertex, at the last vertex of
/// the walk around the boundary.
pub proof fn lemma_accepted_ends_below_start(n: int, m: int, t: Seq<usize>)
    requires
        grid_fits(n, m),
        accepted(n, m, t),
    ensures
        t[0] == 0,
        t[t.len() - 1] == n,
{
    lemma_grid_size(n, m);
    lemma_rim_ends(n, m);
    lemma_reachable_in_step(n, m, t);
    lemma_all_visited(n, m, t);
    let last = rim_len(n, m) - 1;
    lemma_rim_at(n, m, last);
    assert(seen(t, n));
    let k = choose|k: int| 0 <= k < t.len() && #[trigger] t[k] == n;
    let c = rim_count(n, m, t.take(k));
    lemma_rim_at_injective(n, m, c, last);
    lemma_rim_count_bound(n, m, t.take(k));
    if k + 1 < t.len() {
        assert(t.take(k + 1) =~= t.take(k).push(t[k]));
        lemma_rim_count_push(n, m, t.take(k), t[k]);
        assert(extends(n, m, t.take(k + 1), t[k + 1] as int));
        assert(t.take(k + 1).last() == t[k]);
    }
}

/// Every tour that the search accepts is a closed tour of the grid.
pub proof fn lemma_accepted_is_closed_tour(n: int, m: int, t: Seq<usize>)
    requires
        grid_fits(n, m),
        accepted(n, m, t),
    ensures
        is_closed_tour(n, m, t),
{
    lemma_grid_size(n, m);
    lemma_reachable_in_step(n, m, t);
    lemma_all_visited(n, m, t);
    lemma_accepted_ends_below_start(n, m, t);
    assert forall|k: int| 0 <= k < t.len() implies #[trigger] joined_onward(n, m, t, k) by {
        if k + 1 < t.len() {
            assert(joined(n, m, t, k + 1));
        }
    }
}

/// In a closed tour every vertex has two tour edges: one from the vertex
/// before it and one to the vertex after it, and these two are distinct
/// neighbours of it on the lattice.
pub proof fn lemma_two_tour_edges(n: int, m: int, t: Seq<usize>, k: int)
    requires
        grid_fits(n, m),
        is_closed_tour(n, m, t),
        0 <= k < t.len(),
    ensures
        adjacent(n, m, before(t, k), t[k] as int),
        adjacent(n, m, t[k] as int, after(t, k)),
        before(t, k) != after(t, k),
        before(t, k) != t[k],
        after(t, k) != t[k],
{
    lemma_grid_size(n, m);
    let len = t.len() as int;
    let prev = if k > 0 {
        k - 1
    } else {
        len - 1
    };
    let next = if k + 1 < len {
        k + 1
    } else {
        0
    };
    assert(joined_onward(n, m, t, prev));
    assert(joined_onward(n, m, t, k));
    assert(after(t, prev) == t[k]);
    assert(t[prev] != t[next]) by {
        if prev < next {
            assert(t[prev] != t[next]);
        } else {
            assert(t[next] != t[prev]);
        }
    }
    assert(t[prev] != t[k]) by {
        if prev < k {
            assert(t[prev] != t[k]);
        } else {
            assert(t[k] != t[prev]);
        }
    }
    assert(t[next] != t[k]) by {
        if next < k {
            assert(t[next] != t[k]);
        } else {
            assert(t[k] != t[next]);
        }
    }
}

/// A closed tour passes through each corner along both lattice segments that
/// meet there.
pub proof fn lemma_corner_edges(n: int, m: int, t: Seq<usize>, k: int)
    requires
        grid_fits(n, m),
        is_closed_tour(n, m, t),
        0 <= k < t.len(),
        is_corner(n, m, t[k] as int),
    ensures
        ({
            let (a, b) = corner_neighbors(n, m, t[k] as int);
            (before(t, k) == a && after(t, k) == b) || (before(t, k) == b && after(t, k) == a)
        }),
{
    lemma_two_tour_edges(n, m, t, k);
    lemma_adjacent_symmetric(n, m, before(t, k), t[k] as int);
    lemma_corner_neighbors(n, m, t[k] as int, before(t, k));
    lemma_corner_neighbors(n, m, t[k] as int, after(t, k));
}

/// A closed tour visits each of the four corners.
pub proof fn lemma_corners_visited(n: int, m: int, t: Seq<usize>, c: int)
    requires
        grid_fits(n, m),
        is_closed_tour(n, m, t),
        is_corner(n, m, c),
    ensures
        seen(t, c),
{
    lemma_corner_neighbors(n, m, c, 0);
}

/// The colour of a vertex when the grid is coloured like a chessboard.
pub open spec fn colour(n: int, v: int) -> int {
    (v / n + v % n) % 2
}

/// Vertices joined by a lattice segment have different colours.
pub proof fn lemma_neighbours_differ_in_colour(n: int, m: int, a: int, b: int)
    requires
        n >= 1,
        m >= 1,
        adjacent(n, m, a, b),
    ensures
        colour(n, a) != colour(n, b),
{
    lemma_coords(n, m, a);
    lemma_coords(n, m, b);
    let low = if a < b {
        a
    } else {
        b
    };
    let high = if a < b {
        b
    } else {
        a
    };
    let r = low / n;
    let c = low % n;
    lemma_row_shift(n, r);
    if high == low + n {
        lemma_fundamental_div_mod_converse(high, n, r + 1, c);
    } else {
        if c + 1 < n {
            lemma_fundamental_div_mod_converse(high, n, r, c + 1);
        } else {
            lemma_fundamental_div_mod_converse(high, n, r + 1, 0);
        }
    }
}

/// Along a closed tour the colours alternate.
proof fn lemma_colours_alternate(n: int, m: int, t: Seq<usize>, k: int)
    requires
        grid_fits(n, m),
        is_closed_tour(n, m, t),
        0 <= k < t.len(),
    ensures
        colour(n, t[k] as int) == (colour(n, t[0] as int) + k) % 2,
    decreases k,
{
    if k > 0 {
        lemma_colours_alternate(n, m, t, k - 1);
        assert(joined_onward(n, m, t, k - 1));
        lemma_neighbours_differ_in_colour(n, m, t[k - 1] as int, t[k] as int);
    }
}

/// A grid with a closed tour has an even number of vertices.
pub proof fn lemma_closed_tours_need_even_grids(n: int, m: int, t: Seq<usize>)
    requires
        grid_fits(n, m),
        is_closed_tour(n, m, t),
    ensures
        (n * m) % 2 == 0,
{
    lemma_grid_size(n, m);
    let last = t.len() - 1;
    lemma_colours_alternate(n, m, t, last);
    assert(joined_onward(n, m, t, last));
    lemma_neighbours_differ_in_colour(n, m, t[last] as int, t[0] as int);
}

/// On a grid with an odd number of vertices the search accepts nothing.
pub proof fn lemma_nothing_accepted_on_odd_grids(n: int, m: int)
    requires
        grid_fits(n, m),
        (n * m) % 2 == 1,
    ensures
        search_outcome(n, m).tours.len() == 0,
{
    let tours = search_outcome(n, m).tours;
    if tours.len() > 0 {
        let t = tours[0];
        assert(tours.contains(t));
        lemma_reported_tours_are_the_accepted_paths(n, m, t);
        lemma_accepted_is_closed_tour(n, m, t);
        lemma_closed_tours_need_even_grids(n, m, t);
    }
}

/// Where the vertex `v` of the grid with `n` columns comes to lie when rows
/// and columns change places: the vertex of the grid with `m` columns whose
/// row is the column of `v` and whose column is the row of `v`.
pub open spec fn transposed(n: int, m: int, v: int) -> int {
    (v % n) * m + v / n
}

/// Transposing takes vertices to vertices, and transposing twice changes nothing.
pub proof fn lemma_transposed_vertex(n: int, m: int, v: int)
    requires
        n >= 1,
        m >= 1,
        is_vertex(n, m, v),
    ensures
        is_vertex(m, n, transposed(n, m, v)),
        transposed(m, n, transposed(n, m, v)) == v,
{
    lemma_coords(n, m, v);
    lemma_place(m, n, v % n, v / n);
}

/// Vertices joined by a lattice segment stay joined when the grid is transposed.
pub proof fn lemma_transposed_adjacent(n: int, m: int, a: int, b: int)
    requires
        n >= 1,
        m >= 1,
        adjacent(n, m, a, b),
    ensures
        adjacent(m, n, transposed(n, m, a), transposed(n, m, b)),
{
    lemma_coords(n, m, a);
    lemma_coords(n, m, b);
    lemma_transposed_vertex(n, m, a);
    lemma_transposed_vertex(n, m, b);
    let low = if a < b {
        a
    } else {
        b
    };
    let high = if a < b {
        b
    } else {
        a
    };
    let r = low / n;
    let c = low % n;
    lemma_row_shift(n, r);
    lemma_row_shift(m, c);
    if high == low + n {
        lemma_fundamental_div_mod_converse(high, n, r + 1, c);
        lemma_place(m, n, c, r + 1);
    } else {
        if c + 1 < n {
            lemma_fundamental_div_mod_converse(high, n, r, c + 1);
        } else {
            lemma_fundamental_div_mod_converse(high, n, r + 1, 0);
        }
    }
}

} // verus!
