//! The backtracking search for closed tours.

use crate::board::{board_error, initialize_board, Board, BoardError};
use crate::clockwise::{closed_tours, is_clockwise_tour};
use crate::complete::{
    lemma_accepted_are_the_clockwise_tours,
    lemma_accepted_paths_are_the_closed_tours,
};
use crate::enumeration::{
    ascending,
    lemma_backtracks_are_the_explored_paths,
    lemma_entries_are_the_reached_paths,
    lemma_rejections_are_the_exhausted_paths,
    lemma_reported_tours_are_the_accepted_paths,
    lemma_reported_tours_ascend,
    lemma_tours_are_the_accepted_paths,
};
use crate::existence::lemma_even_grids_have_tours;
use crate::grid::{
    adjacent,
    interior,
    lemma_grid_size,
    lemma_interior,
    lemma_rim_at,
    lemma_single_inner_neighbor,
    on_rim,
    rim_at,
    rim_len,
    MAX_VERTICES,
};
use crate::metrics::{count_up, sat_add, Metrics};
use crate::rules::{
    explore,
    explore_upto,
    is_gate,
    lemma_rim_count_bound,
    lemma_rim_count_push,
    lemma_seen_push,
    may_step,
    rim_count,
    search_outcome,
    seen,
    splits,
    Outcome,
};
use crate::symmetry::lemma_counts_agree;
use vstd::prelude::*;

verus! {

/// The paths held by a list of tours.
pub open spec fn paths(tours: Seq<Vec<usize>>) -> Seq<Seq<usize>> {
    tours.map_values(|t: Vec<usize>| t@)
}

/// The board in use during one search: which vertices the path has visited,
/// the path itself, how far the walk around the boundary has come, the return
/// edge that is open, and the tours found so far.
pub struct SearchState {
    /// `visited[x]` tells whether `x` lies on the path.
    pub visited: Vec<bool>,
    /// The path from the start vertex to the vertex being explored.
    pub solution_path: Vec<usize>,
    /// Number of boundary vertices on the path.
    pub visited_rim_vertices: usize,
    /// The edge, from a vertex off the boundary to the boundary vertex that
    /// comes next, by which the path may return to the boundary.
    pub return_edge: Option<(usize, usize)>,
    /// Whether accepted tours are kept in `tours`.
    pub keep_tours: bool,
    /// The accepted tours, in the order in which they were found.
    pub tours: Vec<Vec<usize>>,
}

impl SearchState {
    /// The bookkeeping agrees with the path.
    pub open spec fn wf(&self, board: &Board) -> bool {
        let n = board.n as int;
        let m = board.m as int;
        &&& self.visited@.len() == board.vertices()
        &&& forall|x: int|
            0 <= x < board.vertices() ==> #[trigger] self.visited@[x] == seen(self.solution_path@, x)
        &&& self.solution_path@.len() <= board.vertices()
        &&& self.visited_rim_vertices == rim_count(n, m, self.solution_path@)
        &&& match self.return_edge {
            Some((j, r)) => interior(n, m, j as int) && on_rim(n, m, r as int) && adjacent(
                n,
                m,
                j as int,
                r as int,
            ),
            None => true,
        }
    }

    /// The open return edge leads to the boundary vertex that comes next.
    pub open spec fn gate_open(&self, board: &Board) -> bool {
        let n = board.n as int;
        let m = board.m as int;
        let k = rim_count(n, m, self.solution_path@);
        &&& k < rim_len(n, m)
        &&& match self.return_edge {
            Some((j, r)) => r == rim_at(n, m, k),
            None => false,
        }
    }

    /// The search may enter `v` from this state: `v` is an unvisited vertex,
    /// the path is not complete, and if `v` lies off the boundary, the way
    /// back to the boundary is open.
    pub open spec fn can_enter(&self, board: &Board, v: usize) -> bool {
        &&& v < board.vertices()
        &&& !seen(self.solution_path@, v as int)
        &&& self.solution_path@.len() < board.vertices()
        &&& interior(board.n as int, board.m as int, v as int) ==> self.gate_open(board)
    }

    /// Both states stand at the same place of the search.
    pub open spec fn same_position(&self, other: &SearchState) -> bool {
        &&& self.visited@ == other.visited@
        &&& self.solution_path@ == other.solution_path@
        &&& self.visited_rim_vertices == other.visited_rim_vertices
        &&& self.return_edge == other.return_edge
        &&& self.keep_tours == other.keep_tours
    }

    /// The state before the search starts: nothing visited, no tour found.
    pub fn new(board: &Board, keep_tours: bool) -> (state: SearchState)
        requires
            board.wf(),
        ensures
            state.wf(board),
            state.solution_path@.len() == 0,
            state.tours@.len() == 0,
            state.keep_tours == keep_tours,
            state.return_edge is None,
    {
        let size = board.size();
        let mut visited: Vec<bool> = Vec::new();
        let mut x: usize = 0;
        while x < size
            invariant
                x <= size,
                visited@.len() == x,
                forall|y: int| 0 <= y < x ==> !(#[trigger] visited@[y]),
            decreases size - x,
        {
            visited.push(false);
            x += 1;
        }
        SearchState {
            visited,
            solution_path: Vec::new(),
            visited_rim_vertices: 0,
            return_edge: None,
            keep_tours,
            tours: Vec::new(),
        }
    }
}

/// Looks for an unvisited vertex off the boundary next to the boundary vertex `r`.
fn find_gate(board: &Board, state: &SearchState, r: usize) -> (gate: Option<usize>)
    requires
        board.wf(),
        state.wf(board),
        r < board.vertices(),
    ensures
        match gate {
            Some(j) => j < board.vertices() && is_gate(
                board.n as int,
                board.m as int,
                state.solution_path@,
                r as int,
                j as int,
            ),
            None => forall|j: int|
                !#[trigger] is_gate(board.n as int, board.m as int, state.solution_path@, r as int, j),
        },
{
    let size = board.size();
    let mut gate: Option<usize> = None;
    let mut j: usize = 0;
    while j < size
        invariant
            board.wf(),
            state.wf(board),
            size == board.vertices(),
            r < size,
            j <= size,
            match gate {
                Some(g) => g < size && is_gate(
                    board.n as int,
                    board.m as int,
                    state.solution_path@,
                    r as int,
                    g as int,
                ),
                None => forall|x: int|
                    0 <= x < j ==> !#[trigger] is_gate(
                        board.n as int,
                        board.m as int,
                        state.solution_path@,
                        r as int,
                        x,
                    ),
            },
        decreases size - j,
    {
        if board.adjacency[r][j] && !board.is_rim(j) && !state.visited[j] {
            gate = Some(j);
        }
        j += 1;
    }
    gate
}

/// Whether the step from `v` to `i`, both off the boundary, splits the
/// unvisited vertices.
fn would_split(board: &Board, state: &SearchState, v: usize, i: usize) -> (split: bool)
    requires
        board.wf(),
        state.wf(board),
        interior(board.n as int, board.m as int, v as int),
        interior(board.n as int, board.m as int, i as int),
        adjacent(board.n as int, board.m as int, v as int, i as int),
    ensures
        split == splits(board.n as int, board.m as int, state.solution_path@, v as int, i as int),
{
    let n = board.n;
    proof {
        lemma_interior(board.n as int, board.m as int, v as int);
        lemma_interior(board.n as int, board.m as int, i as int);
    }
    if i + n == v {
        let turned = !state.visited[v + n] && board.is_rim(v - 1) && !state.visited[v - 1];
        let hemmed = (state.visited[i - n] || state.visited[i - n - 1] || state.visited[i - n + 1])
            && !state.visited[i - 1] && !state.visited[i + 1];
        turned || hemmed
    } else if v + n == i {
        let turned = !state.visited[v - n] && board.is_rim(v + 1) && !state.visited[v + 1];
        let hemmed = (state.visited[i + n] || state.visited[i + n - 1] || state.visited[i + n + 1])
            && !state.visited[i - 1] && !state.visited[i + 1];
        turned || hemmed
    } else if i + 1 == v {
        let turned = !state.visited[v + 1] && board.is_rim(v + n) && !state.visited[v + n];
        let hemmed = (state.visited[i - 1] || state.visited[i - 1 - n] || state.visited[i - 1 + n])
            && !state.visited[i - n] && !state.visited[i + n];
        turned || hemmed
    } else {
        (state.visited[i + 1] || state.visited[i + 1 - n] || state.visited[i + 1 + n])
            && !state.visited[i - n] && !state.visited[i + n]
    }
}

/// Copies a path.
fn copy_path(path: &Vec<usize>) -> (copy: Vec<usize>)
    ensures
        copy@ == path@,
{
    let mut copy: Vec<usize> = Vec::new();
    let mut k: usize = 0;
    while k < path.len()
        invariant
            k <= path@.len(),
            copy@ == path@.take(k as int),
        decreases path@.len() - k,
    {
        copy.push(path[k]);
        proof {
            assert(path@.take(k as int).push(path@[k as int]) =~= path@.take(k as int + 1));
        }
        k += 1;
    }
    proof {
        assert(path@.take(path@.len() as int) =~= path@);
    }
    copy
}

/// Enters the vertex `v` and searches everything below it.
///
/// The entry is counted. It is rejected when `v` uses up the boundary while
/// vertices remain unvisited, and accepted as a tour when `v` completes the
/// path. Otherwise each vertex is tried in turn as the next step; the search
/// descends where the rules permit the step. In every case the state is left
/// as it was found, but for the tours that were added to it.
pub fn check_board(board: &Board, state: &mut SearchState, v: usize, metrics: &mut Metrics)
    requires
        board.wf(),
        old(state).wf(board),
        old(state).can_enter(board, v),
    ensures
        final(state).wf(board),
        final(state).same_position(old(state)),
        paths(final(state).tours@) == paths(old(state).tours@) + (if old(state).keep_tours {
            explore(board.n as int, board.m as int, old(state).solution_path@.push(v)).tours
        } else {
            Seq::empty()
        }),
        final(metrics).tallied(
            *old(metrics),
            explore(board.n as int, board.m as int, old(state).solution_path@.push(v)),
        ),
    decreases board.vertices() - old(state).solution_path@.len(),
{
    let size = board.size();
    let ghost n = board.n as int;
    let ghost m = board.m as int;
    let ghost p = state.solution_path@;
    let ghost q = p.push(v);
    let ghost tours_before = paths(state.tours@);
    let ghost metrics_before = *metrics;
    proof {
        lemma_rim_count_push(n, m, p, v);
        lemma_rim_count_bound(n, m, p);
        assert(q.drop_last() =~= p);
        assert(q.last() == v);
        assert forall|x: int| seen(q, x) <==> (seen(p, x) || x == v) by {
            lemma_seen_push(p, v, x);
        }
    }
    metrics.check_counter = count_up(metrics.check_counter);
    let at_the_rim = board.is_rim(v);
    state.solution_path.push(v);
    if at_the_rim {
        state.visited_rim_vertices = state.visited_rim_vertices + 1;
        if state.visited_rim_vertices == board.rim_vertices.len() && state.solution_path.len()
            < size {
            metrics.fail_counter_2 = count_up(metrics.fail_counter_2);
            state.solution_path.pop();
            state.visited_rim_vertices = state.visited_rim_vertices - 1;
            return ;
        }
    }
    if state.solution_path.len() == size {
        metrics.solutions_counter = count_up(metrics.solutions_counter);
        if state.keep_tours {
            let tour = copy_path(&state.solution_path);
            state.tours.push(tour);
            proof {
                assert(paths(state.tours@) =~= tours_before + seq![q]);
            }
        }
        state.solution_path.pop();
        if at_the_rim {
            state.visited_rim_vertices = state.visited_rim_vertices - 1;
        }
        return ;
    }
    state.visited.set(v, true);
    let saved_edge = state.return_edge;
    proof {
        assert(tours_before + Seq::<Seq<usize>>::empty() =~= tours_before);
    }
    let mut i: usize = 0;
    while i < size
        invariant
            board.wf(),
            size == board.vertices(),
            n == board.n as int,
            m == board.m as int,
            i <= size,
            v < size,
            p == old(state).solution_path@,
            q == p.push(v),
            q.last() == v,
            q.len() < size,
            state.wf(board),
            state.solution_path@ == q,
            at_the_rim == on_rim(n, m, v as int),
            !at_the_rim ==> state.gate_open(board) && state.return_edge == saved_edge,
            state.keep_tours == old(state).keep_tours,
            paths(state.tours@) == tours_before + (if state.keep_tours {
                explore_upto(n, m, q, i as int).tours
            } else {
                Seq::empty()
            }),
            metrics.tallied(
                metrics_before,
                (Outcome { calls: 1, rim_rejects: 0, backtracks: 0, tours: Seq::empty() }).followed_by(
                    explore_upto(n, m, q, i as int),
                ),
            ),
        decreases size - i,
    {
        let ghost done = explore_upto(n, m, q, i as int);
        let by_return_edge = match state.return_edge {
            Some((j, r)) => j == v && r == i,
            None => false,
        };
        let mut descend = false;
        if (board.adjacency[v][i] || by_return_edge) && !state.visited[i] {
            if at_the_rim {
                if board.is_rim(i) {
                    descend = true;
                } else if state.visited_rim_vertices < board.rim_vertices.len() {
                    let next = board.rim_vertices[state.visited_rim_vertices];
                    proof {
                        lemma_rim_at(n, m, state.visited_rim_vertices as int);
                    }
                    match find_gate(board, state, next) {
                        Some(j) => {
                            state.return_edge = Some((j, next));
                            descend = true;
                        },
                        None => {},
                    }
                }
            } else if board.is_rim(i) {
                descend = true;
            } else {
                descend = !would_split(board, state, v, i);
            }
        }
        proof {
            if !at_the_rim && on_rim(n, m, i as int) {
                match state.return_edge {
                    Some((j, r)) => {
                        if adjacent(n, m, v as int, i as int) && i == r {
                            lemma_single_inner_neighbor(n, m, r as int, v as int, j as int);
                        }
                    },
                    None => {},
                }
            }
            assert(descend == may_step(n, m, q, i as int));
        }
        if descend {
            check_board(board, state, i, metrics);
            proof {
                let below = explore(n, m, q.push(i));
                assert(explore_upto(n, m, q, i + 1) == done.followed_by(below));
                if state.keep_tours {
                    assert(tours_before + done.tours + below.tours =~= tours_before + (done.tours
                        + below.tours));
                } else {
                    assert(tours_before + Seq::<Seq<usize>>::empty() + Seq::<Seq<usize>>::empty()
                        =~= tours_before + Seq::<Seq<usize>>::empty());
                }
            }
        }
        i += 1;
    }
    state.visited.set(v, false);
    state.solution_path.pop();
    if at_the_rim {
        state.visited_rim_vertices = state.visited_rim_vertices - 1;
    }
    state.return_edge = saved_edge;
    metrics.fail_counter_3 = count_up(metrics.fail_counter_3);
    proof {
        assert(state.visited@ =~= old(state).visited@);
    }
}

/// `run` is what a search of the grid with `n` columns and `m` rows returns:
/// the refusal of the board where there is one, and otherwise metrics that
/// count the paths of the search. A search that runs finds a tour.
pub open spec fn is_search_result(n: int, m: int, run: Result<Metrics, BoardError>) -> bool {
    match run {
        Ok(metrics) => {
            &&& board_error(n, m) is None
            &&& metrics.counts_paths(n, m)
            &&& metrics.reports(search_outcome(n, m))
            &&& metrics.solutions_counter >= 1
        },
        Err(e) => board_error(n, m) == Some(e),
    }
}

/// Searches the grid with `n` columns and `m` rows from vertex `0` and
/// reports the counters of the run.
///
/// The dimensions are refused exactly when no board exists for them.
pub fn search(n: usize, m: usize) -> (run: Result<Metrics, BoardError>)
    ensures
        is_search_result(n as int, m as int, run),
{
    match initialize_board(n, m) {
        Ok(board) => {
            let mut state = SearchState::new(&board, false);
            let mut metrics = Metrics::new();
            proof {
                lemma_grid_size(n as int, m as int);
                assert(seq![0usize] =~= state.solution_path@.push(0usize));
            }
            check_board(&board, &mut state, 0, &mut metrics);
            proof {
                lemma_entries_are_the_reached_paths(n as int, m as int);
                lemma_rejections_are_the_exhausted_paths(n as int, m as int);
                lemma_backtracks_are_the_explored_paths(n as int, m as int);
                lemma_tours_are_the_accepted_paths(n as int, m as int);
                lemma_accepted_paths_are_the_closed_tours(n as int, m as int);
                lemma_even_grids_have_tours(n as int, m as int);
            }
            Ok(metrics)
        },
        Err(e) => Err(e),
    }
}

/// Lists the tours that the search accepts on the grid with `n` columns and
/// `m` rows, in the order in which it finds them. Each tour names the
/// vertices in the order of the walk, starting at vertex `0`.
///
/// The list holds exactly the closed tours of the grid, each walked from
/// vertex `0` to vertex `1` first, in ascending order, so that none occurs
/// twice.
pub fn enumerate_tours(n: usize, m: usize) -> (found: Result<Vec<Vec<usize>>, BoardError>)
    ensures
        match found {
            Ok(tours) => {
                &&& board_error(n as int, m as int) is None
                &&& paths(tours@) == search_outcome(n as int, m as int).tours
                &&& forall|t: Seq<usize>| #[trigger]
                    paths(tours@).contains(t) <==> is_clockwise_tour(n as int, m as int, t)
                &&& ascending(paths(tours@))
            },
            Err(e) => board_error(n as int, m as int) == Some(e),
        },
{
    match initialize_board(n, m) {
        Ok(board) => {
            let mut state = SearchState::new(&board, true);
            let mut metrics = Metrics::new();
            proof {
                lemma_grid_size(n as int, m as int);
                assert(seq![0usize] =~= state.solution_path@.push(0usize));
                assert(paths(state.tours@) =~= Seq::<Seq<usize>>::empty());
            }
            check_board(&board, &mut state, 0, &mut metrics);
            proof {
                let reported = search_outcome(n as int, m as int).tours;
                assert(Seq::<Seq<usize>>::empty() + reported =~= reported);
                lemma_reported_tours_ascend(n as int, m as int);
                assert forall|t: Seq<usize>| #[trigger]
                    reported.contains(t) <==> is_clockwise_tour(n as int, m as int, t) by {
                    lemma_reported_tours_are_the_accepted_paths(n as int, m as int, t);
                    lemma_accepted_are_the_clockwise_tours(n as int, m as int, t);
                }
            }
            Ok(state.tours)
        },
        Err(e) => Err(e),
    }
}

/// Number of closed tours of the grid with `n` columns and `m` rows.
///
/// A grid with an odd number of vertices, or with a single row or column,
/// has no tour. For a grid that is too large to be searched, whichever of its
/// dimensions is taken for the number of columns, the number is not known.
pub open spec fn tour_count(n: int, m: int) -> Option<nat> {
    let columns = if n <= m {
        n
    } else {
        m
    };
    let rows = if n <= m {
        m
    } else {
        n
    };
    match board_error(columns, rows) {
        None => Some(closed_tours(n, m).len()),
        Some(BoardError::TooLarge) => None,
        Some(_) => Some(0),
    }
}

/// The number that `count_tours` returns: the tour count, capped at `i64::MAX`.
pub open spec fn reported_count(n: int, m: int) -> Option<i64> {
    match tour_count(n, m) {
        Some(count) => Some(sat_add(0, count) as i64),
        None => None,
    }
}

/// Counts the closed tours of the grid with `n` columns and `m` rows. The
/// search runs on the grid turned upright, which has as many.
///
/// Returns `None` exactly when the grid has an even number of vertices and
/// more than `MAX_VERTICES` of them.
pub fn count_tours(n: usize, m: usize) -> (count: Option<i64>)
    ensures
        count == reported_count(n as int, m as int),
        count is None <==> (n >= 2 && m >= 2 && (n * m) % 2 == 0 && n * m > MAX_VERTICES),
{
    proof {
        assert(n * m == m * n) by (nonlinear_arith);
    }
    let columns = if n <= m {
        n
    } else {
        m
    };
    let rows = if n <= m {
        m
    } else {
        n
    };
    match search(columns, rows) {
        Ok(metrics) => {
            proof {
                lemma_counts_agree(columns as int, rows as int);
            }
            Some(metrics.solutions_counter)
        },
        Err(BoardError::TooLarge) => None,
        Err(_) => Some(0),
    }
}

} // verus!
