//! The bounds that an interactive session puts on the board size.

use crate::board::board_error;
use vstd::prelude::*;

verus! {

/// Largest number of columns that a session accepts.
pub const N_MAX: usize = 20;

/// Largest number of rows that a session accepts.
pub const M_MAX: usize = 20;

/// Smallest number of vertices that a session accepts.
pub const MIN_BOARD_SIZE: usize = 12;

/// Largest number of vertices that a session accepts.
pub const MAX_BOARD_SIZE: usize = 128;

/// What a session makes of a board size.
#[derive(Clone, Copy, Debug, PartialEq, Eq, Structural)]
pub enum SizeVerdict {
    /// The size is accepted.
    Accepted,
    /// There are more than `N_MAX` columns or more than `M_MAX` rows.
    ExceedsMaximum,
    /// There are more columns than rows.
    WiderThanTall,
    /// There are fewer than `MIN_BOARD_SIZE` vertices.
    TooSmall,
    /// There are more than `MAX_BOARD_SIZE` vertices.
    TooBig,
    /// The number of vertices is odd.
    Odd,
}

/// The verdict on `n` columns and `m` rows. The tests are made in the order
/// of the variants, and the first that fails decides.
pub open spec fn size_verdict(n: int, m: int) -> SizeVerdict {
    if n > N_MAX || m > M_MAX {
        SizeVerdict::ExceedsMaximum
    } else if n > m {
        SizeVerdict::WiderThanTall
    } else if n * m < MIN_BOARD_SIZE {
        SizeVerdict::TooSmall
    } else if n * m > MAX_BOARD_SIZE {
        SizeVerdict::TooBig
    } else if (n * m) % 2 == 1 {
        SizeVerdict::Odd
    } else {
        SizeVerdict::Accepted
    }
}

/// Judges a board size, saying which bound it breaks if it breaks one.
pub fn judge_board_size(n: usize, m: usize) -> (verdict: SizeVerdict)
    ensures
        verdict == size_verdict(n as int, m as int),
{
    if n > N_MAX || m > M_MAX {
        return SizeVerdict::ExceedsMaximum;
    }
    if n > m {
        return SizeVerdict::WiderThanTall;
    }
    proof {
        assert(n * m <= N_MAX * M_MAX) by (nonlinear_arith)
            requires
                n <= N_MAX,
                m <= M_MAX,
        ;
    }
    let size = n * m;
    if size < MIN_BOARD_SIZE {
        SizeVerdict::TooSmall
    } else if size > MAX_BOARD_SIZE {
        SizeVerdict::TooBig
    } else if size % 2 == 1 {
        SizeVerdict::Odd
    } else {
        SizeVerdict::Accepted
    }
}

/// Whether a session accepts `n` columns and `m` rows.
pub fn validate_board_size(n: usize, m: usize) -> (valid: bool)
    ensures
        valid == (size_verdict(n as int, m as int) is Accepted),
{
    match judge_board_size(n, m) {
        SizeVerdict::Accepted => true,
        _ => false,
    }
}

/// Every size that a session accepts has a board, but for grids of a single
/// column.
pub proof fn lemma_accepted_sizes_have_boards(n: int, m: int)
    requires
        size_verdict(n, m) is Accepted,
        n >= 2,
    ensures
        board_error(n, m) is None,
{
}

} // verus!
