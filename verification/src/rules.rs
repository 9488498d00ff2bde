//! The rules of the search, stated over the path walked so far.
//!
//! A path is the sequence of vertices from the start vertex to the vertex the
//! search stands on. Which vertices count as visited, how far the walk around
//! the boundary has come, and which step may be taken next are all functions
//! of that path.
//!
//! The rules prune the search without changing what it finds: the paths they
//! accept are exactly the closed tours of the grid, each walked clockwise
//! from the start vertex.

use crate::grid::{adjacent, clockwise_next, interior, on_rim, rim_at, rim_len};
use vstd::prelude::*;

verus! {

/// The vertex `x` occurs on the path `q`.
pub open spec fn seen(q: Seq<usize>, x: int) -> bool {
    exists|k: int| 0 <= k < q.len() && #[trigger] q[k] == x
}

/// Number of boundary vertices on the path `q`.
pub open spec fn rim_count(n: int, m: int, q: Seq<usize>) -> int
    decreases q.len(),
{
    if q.len() == 0 {
        0
    } else {
        rim_count(n, m, q.drop_last()) + if on_rim(n, m, q.last() as int) {
            1int
        } else {
            0int
        }
    }
}

/// A vertex is seen on a path extended by `v` when it was seen before or is `v`.
pub proof fn lemma_seen_push(q: Seq<usize>, v: usize, x: int)
    ensures
        seen(q.push(v), x) <==> (seen(q, x) || x == v),
{
    let e = q.push(v);
    if seen(q, x) {
        let k = choose|k: int| 0 <= k < q.len() && #[trigger] q[k] == x;
        assert(e[k] == x);
    }
    if x == v {
        assert(e[q.len() as int] == x);
    }
    if seen(e, x) {
        let k = choose|k: int| 0 <= k < e.len() && #[trigger] e[k] == x;
        if k < q.len() {
            assert(q[k] == x);
        }
    }
}

/// Extending a path by `v` raises its boundary count by one when `v` lies on
/// the boundary, and leaves it as it is otherwise.
pub proof fn lemma_rim_count_push(n: int, m: int, q: Seq<usize>, v: usize)
    ensures
        rim_count(n, m, q.push(v)) == rim_count(n, m, q) + if on_rim(n, m, v as int) {
            1int
        } else {
            0int
        },
{
    assert(q.push(v).drop_last() =~= q);
}

/// A path holds at most as many boundary vertices as vertices.
pub proof fn lemma_rim_count_bound(n: int, m: int, q: Seq<usize>)
    ensures
        0 <= rim_count(n, m, q) <= q.len(),
    decreases q.len(),
{
    if q.len() > 0 {
        lemma_rim_count_bound(n, m, q.drop_last());
    }
}

/// `j` can carry the path back onto the boundary at `r`: it lies off the
/// boundary, next to `r`, and has not been visited.
pub open spec fn is_gate(n: int, m: int, q: Seq<usize>, r: int, j: int) -> bool {
    interior(n, m, j) && adjacent(n, m, r, j) && !seen(q, j)
}

/// A return edge can be opened: the boundary walk is not finished, and the
/// boundary vertex that comes next has an unvisited neighbour off the boundary.
pub open spec fn return_edge_available(n: int, m: int, q: Seq<usize>) -> bool {
    let k = rim_count(n, m, q);
    k < rim_len(n, m) && exists|j: int| #[trigger] is_gate(n, m, q, rim_at(n, m, k), j)
}

/// Stepping from `v` to `i`, both off the boundary, would cut the unvisited
/// vertices in two.
///
/// With `d` the step and `s` the sideways offset, the step is refused in two
/// cases. First, when the path has just turned at `v` and the vertex to the
/// left of `v` is an unvisited boundary vertex (never for a step to the
/// right). Second, when one of the three vertices beyond `i` is visited while
/// both vertices beside `i` are not.
pub open spec fn splits(n: int, m: int, q: Seq<usize>, v: int, i: int) -> bool {
    let d = i - v;
    let s = if d == n || d == -n {
        1
    } else {
        n
    };
    let left = if d == -n {
        v - 1
    } else if d == n {
        v + 1
    } else {
        v + n
    };
    ||| (d != 1 && !seen(q, v - d) && on_rim(n, m, left) && !seen(q, left))
    ||| ((seen(q, i + d) || seen(q, i + d - s) || seen(q, i + d + s)) && !seen(q, i - s) && !seen(
        q,
        i + s,
    ))
}

/// The search, standing at the end of the path `q`, descends into vertex `i`.
///
/// `i` must be an unvisited lattice neighbour of the last vertex. Along the
/// boundary only the clockwise step is taken. The boundary is left only when a
/// return edge can be opened, and entered again only at the boundary vertex
/// that comes next. Off the boundary a step is taken unless it splits the
/// unvisited vertices.
pub open spec fn may_step(n: int, m: int, q: Seq<usize>, i: int) -> bool {
    let v = q.last() as int;
    &&& q.len() > 0
    &&& adjacent(n, m, v, i)
    &&& !seen(q, i)
    &&& if on_rim(n, m, v) {
        if on_rim(n, m, i) {
            i == clockwise_next(n, m, v)
        } else {
            return_edge_available(n, m, q)
        }
    } else {
        if on_rim(n, m, i) {
            rim_count(n, m, q) < rim_len(n, m) && i == rim_at(n, m, rim_count(n, m, q))
        } else {
            !splits(n, m, q, v, i)
        }
    }
}

/// The path has used up the boundary while vertices remain unvisited.
pub open spec fn rim_exhausted(n: int, m: int, q: Seq<usize>) -> bool {
    &&& q.len() > 0
    &&& on_rim(n, m, q.last() as int)
    &&& rim_count(n, m, q) == rim_len(n, m)
    &&& q.len() < n * m
}

/// What a part of the search amounts to: how many vertices it entered, how
/// many of those entries it rejected for an exhausted boundary, how many it
/// left after trying every neighbour, and the tours it accepted, in the
/// order in which it found them.
pub struct Outcome {
    pub calls: nat,
    pub rim_rejects: nat,
    pub backtracks: nat,
    pub tours: Seq<Seq<usize>>,
}

impl Outcome {
    /// The outcome of no search at all.
    pub open spec fn nothing() -> Outcome {
        Outcome { calls: 0, rim_rejects: 0, backtracks: 0, tours: Seq::empty() }
    }

    /// The outcome of this part of a search followed by a `later` part.
    pub open spec fn followed_by(self, later: Outcome) -> Outcome {
        Outcome {
            calls: self.calls + later.calls,
            rim_rejects: self.rim_rejects + later.rim_rejects,
            backtracks: self.backtracks + later.backtracks,
            tours: self.tours + later.tours,
        }
    }
}

/// How the entry into the last vertex of `q` ends: as a rejection when the
/// boundary is exhausted, as an accepted tour when the path holds every
/// vertex, and as a backtrack otherwise.
pub open spec fn entry(n: int, m: int, q: Seq<usize>) -> Outcome {
    if rim_exhausted(n, m, q) {
        Outcome { calls: 1, rim_rejects: 1, backtracks: 0, tours: Seq::empty() }
    } else if q.len() == n * m {
        Outcome { calls: 1, rim_rejects: 0, backtracks: 0, tours: seq![q] }
    } else {
        Outcome { calls: 1, rim_rejects: 0, backtracks: 1, tours: Seq::empty() }
    }
}

/// The search below the path `q`, whose last vertex has just been entered.
///
/// A rejected or accepted entry ends the search at once. Otherwise every
/// vertex is tried as the next step, in increasing order.
pub open spec fn explore(n: int, m: int, q: Seq<usize>) -> Outcome
    decreases n * m - q.len(), n * m + 1,
{
    if q.len() == 0 || q.len() > n * m {
        Outcome::nothing()
    } else if rim_exhausted(n, m, q) || q.len() == n * m {
        entry(n, m, q)
    } else {
        entry(n, m, q).followed_by(explore_upto(n, m, q, n * m))
    }
}

/// The search below the path `q`, restricted to next steps smaller than `bound`.
pub open spec fn explore_upto(n: int, m: int, q: Seq<usize>, bound: int) -> Outcome
    decreases n * m - q.len(), bound,
{
    if bound <= 0 || q.len() >= n * m {
        Outcome::nothing()
    } else {
        let i = bound - 1;
        let before = explore_upto(n, m, q, i);
        if may_step(n, m, q, i) {
            before.followed_by(explore(n, m, q.push(i as usize)))
        } else {
            before
        }
    }
}

/// The path `p`, not yet complete and not rejected, is extended by `i`.
pub open spec fn extends(n: int, m: int, p: Seq<usize>, i: int) -> bool {
    p.len() < n * m && !rim_exhausted(n, m, p) && may_step(n, m, p, i)
}

/// The search enters the last vertex of `q` at some point: the path starts at
/// vertex `0`, and each of its vertices was a permitted step from the path
/// before it.
pub open spec fn reachable(n: int, m: int, q: Seq<usize>) -> bool {
    &&& q.len() >= 1
    &&& q[0] == 0
    &&& forall|k: int| 1 <= k < q.len() ==> #[trigger] extends(n, m, q.take(k), q[k] as int)
}

/// The search accepts `t` as a tour: it reaches `t`, and `t` holds as many
/// vertices as the grid.
pub open spec fn accepted(n: int, m: int, t: Seq<usize>) -> bool {
    reachable(n, m, t) && t.len() == n * m
}

/// The paths that the search enters on the grid with `n` columns and `m` rows.
pub open spec fn reached_paths(n: int, m: int) -> Set<Seq<usize>> {
    Set::new(|r: Seq<usize>| reachable(n, m, r))
}

/// The paths at which the search turns back because the boundary is used up.
pub open spec fn exhausted_paths(n: int, m: int) -> Set<Seq<usize>> {
    Set::new(|r: Seq<usize>| reachable(n, m, r) && rim_exhausted(n, m, r))
}

/// The paths from which the search tries every next step.
pub open spec fn explored_paths(n: int, m: int) -> Set<Seq<usize>> {
    Set::new(|r: Seq<usize>| reachable(n, m, r) && !rim_exhausted(n, m, r) && r.len() < n * m)
}

/// The paths that the search accepts as tours.
pub open spec fn accepted_paths(n: int, m: int) -> Set<Seq<usize>> {
    Set::new(|t: Seq<usize>| accepted(n, m, t))
}

/// Everything the search does on the grid with `n` columns and `m` rows, as
/// the search goes through it.
pub open spec fn search_outcome(n: int, m: int) -> Outcome {
    explore(n, m, seq![0usize])
}

} // verus!
