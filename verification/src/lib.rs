use vstd::prelude::*;

pub mod board;
pub mod bot;
pub mod move_generation;
pub mod notation;
pub mod piece;
pub mod placement;

verus! {

/// A move: source square and destination square, each as (row, column).
/// Row 0 is rank 8 (the top of the board); column 0 is file 'a'.
pub type Move = ((usize, usize), (usize, usize));

/// True when a (row, column) pair lies on the 8x8 board.
pub open spec fn in_bounds(r: int, c: int) -> bool {
    0 <= r < 8 && 0 <= c < 8
}

/// Row-major index of a board coordinate into the 64-square grid.
pub open spec fn idx(r: int, c: int) -> int {
    r * 8 + c
}

} // verus!
