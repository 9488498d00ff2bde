//! The board: the directed adjacency relation of a grid and its boundary walk.

use crate::grid::{
    edge,
    lemma_grid_size,
    lemma_row_shift,
    on_rim,
    rim_at,
    rim_len,
    MAX_VERTICES,
};
use vstd::arithmetic::div_mod::lemma_mul_mod_noop;
use vstd::prelude::*;

verus! {

/// Why a pair of dimensions cannot be given a board.
#[derive(Clone, Copy, Debug, PartialEq, Eq, Structural)]
pub enum BoardError {
    /// The grid has fewer than two columns.
    TooFewColumns,
    /// The grid has more columns than rows.
    WiderThanTall,
    /// The grid has an odd number of vertices, so no closed tour exists on it.
    OddVertexCount,
    /// The grid has more than `MAX_VERTICES` vertices.
    TooLarge,
}

/// The reason for which `n` columns and `m` rows are refused, if they are.
pub open spec fn board_error(n: int, m: int) -> Option<BoardError> {
    if n < 2 {
        Some(BoardError::TooFewColumns)
    } else if n > m {
        Some(BoardError::WiderThanTall)
    } else if (n * m) % 2 == 1 {
        Some(BoardError::OddVertexCount)
    } else if n * m > MAX_VERTICES {
        Some(BoardError::TooLarge)
    } else {
        None
    }
}

/// Dimensions for which a board exists: at least two columns, no more
/// columns than rows, and an even number of vertices, at most `MAX_VERTICES`.
pub open spec fn valid_dims(n: int, m: int) -> bool {
    board_error(n, m) is None
}

/// The adjacency relation and the boundary walk of one grid. Both are fixed
/// once the board is built.
pub struct Board {
    /// Number of columns.
    pub n: usize,
    /// Number of rows.
    pub m: usize,
    /// `adjacency[a][b]` tells whether the board holds an edge from `a` to `b`.
    pub adjacency: Vec<Vec<bool>>,
    /// The boundary vertices in clockwise order, starting at vertex `0`.
    pub rim_vertices: Vec<usize>,
}

impl Board {
    /// Number of vertices, as a mathematical integer.
    pub open spec fn vertices(&self) -> int {
        self.n * self.m
    }

    /// The tables hold exactly the edges and the boundary walk of the grid.
    pub open spec fn wf(&self) -> bool {
        &&& valid_dims(self.n as int, self.m as int)
        &&& self.adjacency@.len() == self.vertices()
        &&& forall|a: int|
            0 <= a < self.vertices() ==> (#[trigger] self.adjacency@[a])@.len() == self.vertices()
        &&& forall|a: int, b: int|
            0 <= a < self.vertices() && 0 <= b < self.vertices() ==> #[trigger] self.adjacency@[a]@[b]
                == edge(self.n as int, self.m as int, a, b)
        &&& self.rim_vertices@.len() == rim_len(self.n as int, self.m as int)
        &&& forall|k: int|
            0 <= k < self.rim_vertices@.len() ==> #[trigger] self.rim_vertices@[k] == rim_at(
                self.n as int,
                self.m as int,
                k,
            )
    }

    /// Number of vertices.
    pub fn size(&self) -> (size: usize)
        requires
            self.wf(),
        ensures
            size == self.vertices(),
            4 <= size <= MAX_VERTICES,
            2 * self.n <= size,
            2 * self.m <= size,
    {
        proof {
            lemma_grid_size(self.n as int, self.m as int);
        }
        self.adjacency.len()
    }

    /// Whether `v` lies on the boundary.
    pub fn is_rim(&self, v: usize) -> (rim: bool)
        requires
            self.wf(),
            v < self.vertices(),
        ensures
            rim == on_rim(self.n as int, self.m as int, v as int),
    {
        let size = self.size();
        lies_on_rim(self.n, size, v)
    }
}

/// Whether `v` lies in the first or last row or column of a grid with `n`
/// columns and `size` vertices.
fn lies_on_rim(n: usize, size: usize, v: usize) -> (rim: bool)
    requires
        0 < n <= size,
        v < size,
    ensures
        rim == (v < n || v >= size - n || v % n == 0 || v % n == n - 1),
{
    v < n || v >= size - n || v % n == 0 || v % n == n - 1
}

/// Whether the board holds an edge from `a` to `b`.
fn has_edge(n: usize, m: usize, size: usize, a: usize, b: usize) -> (yes: bool)
    requires
        2 <= n,
        2 <= m,
        size == n * m,
        size <= MAX_VERTICES,
        a < size,
        b < size,
    ensures
        yes == edge(n as int, m as int, a as int, b as int),
{
    proof {
        lemma_grid_size(n as int, m as int);
    }
    let touching = b == a + n || a == b + n || (b == a + 1 && b % n != 0) || (a == b + 1 && a % n
        != 0);
    if !touching {
        return false;
    }
    if !lies_on_rim(n, size, b) {
        return true;
    }
    if !lies_on_rim(n, size, a) {
        return false;
    }
    if a < n - 1 {
        b == a + 1
    } else if a % n == n - 1 && a != size - 1 {
        b == a + n
    } else if a >= size - n && a != size - n {
        b + 1 == a
    } else {
        b + n == a
    }
}

/// The edges that leave `a`, as one row of the adjacency table.
fn adjacency_row(n: usize, m: usize, size: usize, a: usize) -> (row: Vec<bool>)
    requires
        2 <= n,
        2 <= m,
        size == n * m,
        size <= MAX_VERTICES,
        a < size,
    ensures
        row@.len() == size,
        forall|b: int| 0 <= b < size ==> #[trigger] row@[b] == edge(n as int, m as int, a as int, b),
{
    let mut row: Vec<bool> = Vec::new();
    let mut b: usize = 0;
    while b < size
        invariant
            2 <= n,
            2 <= m,
            size == n * m,
            size <= MAX_VERTICES,
            a < size,
            b <= size,
            row@.len() == b,
            forall|x: int| 0 <= x < b ==> #[trigger] row@[x] == edge(n as int, m as int, a as int, x),
        decreases size - b,
    {
        row.push(has_edge(n, m, size, a, b));
        b += 1;
    }
    row
}

/// Walks the boundary clockwise from vertex `0`: the top row from left to
/// right, the right column downwards, the bottom row from right to left, and
/// the left column upwards, naming no vertex twice.
fn rim_walk(n: usize, m: usize, size: usize) -> (rim: Vec<usize>)
    requires
        2 <= n,
        2 <= m,
        size == n * m,
        size <= MAX_VERTICES,
    ensures
        rim@.len() == rim_len(n as int, m as int),
        forall|k: int| 0 <= k < rim@.len() ==> #[trigger] rim@[k] == rim_at(n as int, m as int, k),
{
    proof {
        lemma_grid_size(n as int, m as int);
        lemma_row_shift(n as int, m as int - 1);
        assert(m * n == n * m) by (nonlinear_arith);
        assert(0 * n == 0) by (nonlinear_arith);
    }
    let mut rim: Vec<usize> = Vec::new();
    let mut i: usize = 0;
    while i < n
        invariant
            i <= n,
            0 * n == 0,
            rim@.len() == i,
            forall|k: int| 0 <= k < rim@.len() ==> #[trigger] rim@[k] == rim_at(n as int, m as int, k),
        decreases n - i,
    {
        rim.push(i);
        i += 1;
    }
    let mut j: usize = 1;
    while j < m
        invariant
            2 <= n,
            2 <= m,
            size == n * m,
            size <= MAX_VERTICES,
            1 <= j <= m,
            rim@.len() == n + j - 1,
            forall|k: int| 0 <= k < rim@.len() ==> #[trigger] rim@[k] == rim_at(n as int, m as int, k),
        decreases m - j,
    {
        proof {
            lemma_row_shift(n as int, j as int);
            assert(n <= (j + 1) * n <= m * n) by (nonlinear_arith)
                requires
                    1 <= j + 1 <= m,
                    n >= 0,
            ;
        }
        rim.push((j + 1) * n - 1);
        j += 1;
    }
    let mut i: usize = 1;
    while i < n
        invariant
            2 <= n,
            2 <= m,
            size == n * m,
            size <= MAX_VERTICES,
            (m - 1) * n == n * m - n,
            n * m >= 2 * n,
            1 <= i <= n,
            rim@.len() == n + m - 2 + i,
            forall|k: int| 0 <= k < rim@.len() ==> #[trigger] rim@[k] == rim_at(n as int, m as int, k),
        decreases n - i,
    {
        rim.push(size - 1 - i);
        i += 1;
    }
    let mut j: usize = 1;
    while j + 1 < m
        invariant
            2 <= n,
            2 <= m,
            size == n * m,
            size <= MAX_VERTICES,
            1 <= j <= m - 1,
            rim@.len() == 2 * n + m - 3 + j,
            forall|k: int| 0 <= k < rim@.len() ==> #[trigger] rim@[k] == rim_at(n as int, m as int, k),
        decreases m - j,
    {
        proof {
            assert(0 <= (m - 1 - j) * n <= m * n) by (nonlinear_arith)
                requires
                    0 <= m - 1 - j <= m,
                    n >= 0,
            ;
        }
        rim.push((m - 1 - j) * n);
        j += 1;
    }
    rim
}

/// A product is odd exactly when both factors are.
pub proof fn lemma_odd_product(n: int, m: int)
    ensures
        ((n * m) % 2 == 1) <==> (n % 2 == 1 && m % 2 == 1),
{
    lemma_mul_mod_noop(n, m, 2);
    let a = n % 2;
    let b = m % 2;
    assert(a * b == if a == 1 && b == 1 {
        1int
    } else {
        0int
    }) by (nonlinear_arith)
        requires
            0 <= a <= 1,
            0 <= b <= 1,
    ;
}

/// Builds the board of a grid with `n` columns and `m` rows.
///
/// The dimensions are refused unless there are at least two columns, no more
/// columns than rows, an even number of vertices, and at most `MAX_VERTICES`
/// of them.
pub fn initialize_board(n: usize, m: usize) -> (built: Result<Board, BoardError>)
    ensures
        match built {
            Ok(board) => board_error(n as int, m as int) is None && board.wf() && board.n == n
                && board.m == m,
            Err(e) => board_error(n as int, m as int) == Some(e),
        },
{
    if n < 2 {
        return Err(BoardError::TooFewColumns);
    }
    if n > m {
        return Err(BoardError::WiderThanTall);
    }
    proof {
        lemma_odd_product(n as int, m as int);
    }
    if n % 2 == 1 && m % 2 == 1 {
        return Err(BoardError::OddVertexCount);
    }
    if m > MAX_VERTICES {
        proof {
            assert(n * m > MAX_VERTICES) by (nonlinear_arith)
                requires
                    n >= 2,
                    m > MAX_VERTICES,
            ;
        }
        return Err(BoardError::TooLarge);
    }
    proof {
        assert(n * m <= MAX_VERTICES * MAX_VERTICES) by (nonlinear_arith)
            requires
                n <= m,
                m <= MAX_VERTICES,
        ;
    }
    let size = n * m;
    if size > MAX_VERTICES {
        return Err(BoardError::TooLarge);
    }
    let mut adjacency: Vec<Vec<bool>> = Vec::new();
    let mut a: usize = 0;
    while a < size
        invariant
            2 <= n,
            2 <= m,
            size == n * m,
            size <= MAX_VERTICES,
            a <= size,
            adjacency@.len() == a,
            forall|x: int| 0 <= x < a ==> (#[trigger] adjacency@[x])@.len() == size,
            forall|x: int, y: int|
                0 <= x < a && 0 <= y < size ==> #[trigger] adjacency@[x]@[y] == edge(
                    n as int,
                    m as int,
                    x,
                    y,
                ),
        decreases size - a,
    {
        let row = adjacency_row(n, m, size, a);
        adjacency.push(row);
        a += 1;
    }
    let rim_vertices = rim_walk(n, m, size);
    Ok(Board { n, m, adjacency, rim_vertices })
}

} // verus!
