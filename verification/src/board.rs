use vstd::prelude::*;

use crate::idx;
use crate::in_bounds;

verus! {

/// The six piece kinds, named by their algebraic-notation letters
/// (N is the knight).
#[derive(Clone, Copy, Debug, PartialEq, Eq, Structural)]
pub enum Piece {
    K,
    Q,
    R,
    B,
    N,
    P,
}

/// What a square holds: a piece kind and its side, or nothing.
/// The side flag is `true` for White, `false` for Black.
pub type Occ = Option<(Piece, bool)>;

/// One square of the board.
#[derive(Clone, Copy, Debug, PartialEq, Eq)]
pub struct Square {
    pub piece: Occ,
}

/// The most recently executed move: the destination square it landed on,
/// the kind of the piece that moved, and the side that moved it.
/// It is consulted only to decide en-passant eligibility for the very next
/// move, so it is stale after one ply.
#[derive(Clone, Copy, Debug, PartialEq, Eq)]
pub struct LastMove {
    pub position: (usize, usize),
    pub piece: Piece,
    pub color: bool,
}

/// The full game state: the 8x8 grid stored row-major as 64 squares
/// (row 0 = rank 8 at the top), the last executed move, cached king
/// coordinates for each side, and per-side in-check flags.
#[derive(Debug)]
pub struct Board {
    pub squares: Vec<Square>,
    pub last_move: Option<LastMove>,
    pub w_king_pos: (usize, usize),
    pub b_king_pos: (usize, usize),
    pub w_in_check: bool,
    pub b_in_check: bool,
}

impl Board {
    /// The mathematical view of the grid: occupant of square (r, c) at
    /// index r * 8 + c.
    pub open spec fn grid(self) -> Seq<Occ> {
        self.squares.view().map(|i: int, s: Square| s.piece)
    }

    /// Basic well-formedness: the grid has exactly 64 squares and the
    /// cached king coordinates are on the board.
    pub open spec fn wf(self) -> bool {
        &&& self.squares.view().len() == 64
        &&& in_bounds(self.w_king_pos.0 as int, self.w_king_pos.1 as int)
        &&& in_bounds(self.b_king_pos.0 as int, self.b_king_pos.1 as int)
    }

    /// The cached king coordinate of `color`.
    pub open spec fn king_pos_of(self, color: bool) -> (int, int) {
        if color {
            (self.w_king_pos.0 as int, self.w_king_pos.1 as int)
        } else {
            (self.b_king_pos.0 as int, self.b_king_pos.1 as int)
        }
    }

    /// The cached in-check flag of `color`.
    pub open spec fn check_flag_of(self, color: bool) -> bool {
        if color {
            self.w_in_check
        } else {
            self.b_in_check
        }
    }

    /// The stronger invariant behind check and game-end queries: each side's
    /// cached king coordinate points at its king on the grid, and no other
    /// square holds a king of that side.
    pub open spec fn kings_consistent(self) -> bool {
        &&& occ_at(self.grid(), self.king_pos_of(true).0, self.king_pos_of(true).1)
            == Some((Piece::K, true))
        &&& occ_at(self.grid(), self.king_pos_of(false).0, self.king_pos_of(false).1)
            == Some((Piece::K, false))
        &&& forall|r: int, c: int|
            in_bounds(r, c) && #[trigger] occ_at(self.grid(), r, c) == Some((Piece::K, true))
                ==> (r, c) == self.king_pos_of(true)
        &&& forall|r: int, c: int|
            in_bounds(r, c) && #[trigger] occ_at(self.grid(), r, c) == Some((Piece::K, false))
                ==> (r, c) == self.king_pos_of(false)
    }

    /// Reads the occupant of square (r, c).
    pub fn get_square(&self, r: usize, c: usize) -> (occ: Occ)
        requires
            self.wf(),
            r < 8,
            c < 8,
        ensures
            occ == occ_at(self.grid(), r as int, c as int),
    {
        self.squares[r * 8 + c].piece
    }

    /// Overwrites the occupant of square (r, c), leaving every other part
    /// of the state as it was.
    pub fn set_square(&mut self, r: usize, c: usize, occ: Occ)
        requires
            old(self).wf(),
            r < 8,
            c < 8,
        ensures
            final(self).wf(),
            final(self).grid() == old(self).grid().update(idx(r as int, c as int), occ),
            final(self).last_move == old(self).last_move,
            final(self).w_king_pos == old(self).w_king_pos,
            final(self).b_king_pos == old(self).b_king_pos,
            final(self).w_in_check == old(self).w_in_check,
            final(self).b_in_check == old(self).b_in_check,
    {
        self.squares[r * 8 + c] = Square { piece: occ };
        proof {
            assert(self.grid() =~= old(self).grid().update(idx(r as int, c as int), occ));
        }
    }

    /// An independent copy of the whole game state.
    pub fn clone_board(&self) -> (b: Board)
        requires
            self.wf(),
        ensures
            b.wf(),
            b.grid() == self.grid(),
            b.last_move == self.last_move,
            b.w_king_pos == self.w_king_pos,
            b.b_king_pos == self.b_king_pos,
            b.w_in_check == self.w_in_check,
            b.b_in_check == self.b_in_check,
    {
        let mut squares: Vec<Square> = Vec::new();
        let mut i: usize = 0;
        while i < 64
            invariant
                i <= 64,
                self.wf(),
                squares.view().len() == i,
                forall|j: int| 0 <= j < i ==> squares.view()[j] == self.squares.view()[j],
            decreases 64 - i,
        {
            squares.push(self.squares[i]);
            i += 1;
        }
        let b = Board {
            squares,
            last_move: self.last_move,
            w_king_pos: self.w_king_pos,
            b_king_pos: self.b_king_pos,
            w_in_check: self.w_in_check,
            b_in_check: self.b_in_check,
        };
        proof {
            assert(b.grid() =~= self.grid());
        }
        b
    }
}

/// The occupant of square (r, c) in a 64-square grid.
pub open spec fn occ_at(g: Seq<Occ>, r: int, c: int) -> Occ {
    g[idx(r, c)]
}

/// The piece standing on White's or Black's back rank in column `c` at the
/// start of the game.
pub open spec fn back_rank_piece(c: int) -> Piece {
    if c == 0 || c == 7 {
        Piece::R
    } else if c == 1 || c == 6 {
        Piece::N
    } else if c == 2 || c == 5 {
        Piece::B
    } else if c == 3 {
        Piece::Q
    } else {
        Piece::K
    }
}

/// The occupant of square (r, c) in the standard initial position:
/// Black's pieces on rows 0 and 1, White's on rows 6 and 7.
pub open spec fn initial_occ(r: int, c: int) -> Occ {
    if r == 0 {
        Some((back_rank_piece(c), false))
    } else if r == 1 {
        Some((Piece::P, false))
    } else if r == 6 {
        Some((Piece::P, true))
    } else if r == 7 {
        Some((back_rank_piece(c), true))
    } else {
        None
    }
}

impl Board {
    /// The standard initial position: no move played yet, kings on e1 and
    /// e8 (rows 7 and 0, column 4), neither side in check.
    pub fn new() -> (b: Board)
        ensures
            b.wf(),
            b.kings_consistent(),
            forall|r: int, c: int|
                in_bounds(r, c) ==> #[trigger] occ_at(b.grid(), r, c) == initial_occ(r, c),
            b.last_move is None,
            b.w_king_pos == (7usize, 4usize),
            b.b_king_pos == (0usize, 4usize),
            !b.w_in_check,
            !b.b_in_check,
    {
        let mut squares: Vec<Square> = Vec::new();
        let mut i: usize = 0;
        while i < 64
            invariant
                i <= 64,
                squares.view().len() == i,
                forall|j: int| 0 <= j < i ==> squares.view()[j] == (Square { piece: None }),
            decreases 64 - i,
        {
            squares.push(Square { piece: None });
            i += 1;
        }

        let mut b = Board {
            squares,
            last_move: None,
            w_king_pos: (7, 4),
            b_king_pos: (0, 4),
            w_in_check: false,
            b_in_check: false,
        };

        let mut c: usize = 0;
        while c < 8
            invariant
                c <= 8,
                b.wf(),
                b.last_move is None,
                b.w_king_pos == (7usize, 4usize),
                b.b_king_pos == (0usize, 4usize),
                !b.w_in_check,
                !b.b_in_check,
                forall|rr: int, cc: int|
                    in_bounds(rr, cc) && (rr == 1 || rr == 6) && cc < c
                        ==> occ_at(#[trigger] b.grid(), rr, cc) == initial_occ(rr, cc),
                forall|rr: int, cc: int|
                    in_bounds(rr, cc) && !((rr == 1 || rr == 6) && cc < c)
                        ==> occ_at(#[trigger] b.grid(), rr, cc) is None,
            decreases 8 - c,
        {
            b.set_square(1, c, Some((Piece::P, false)));
            b.set_square(6, c, Some((Piece::P, true)));
            c += 1;
        }

        let mut c: usize = 0;
        while c < 8
            invariant
                c <= 8,
                b.wf(),
                b.last_move is None,
                b.w_king_pos == (7usize, 4usize),
                b.b_king_pos == (0usize, 4usize),
                !b.w_in_check,
                !b.b_in_check,
                forall|rr: int, cc: int|
                    in_bounds(rr, cc) && (rr == 1 || rr == 6)
                        ==> occ_at(#[trigger] b.grid(), rr, cc) == initial_occ(rr, cc),
                forall|rr: int, cc: int|
                    in_bounds(rr, cc) && (rr == 0 || rr == 7) && cc < c
                        ==> occ_at(#[trigger] b.grid(), rr, cc) == initial_occ(rr, cc),
                forall|rr: int, cc: int|
                    in_bounds(rr, cc) && !(rr == 1 || rr == 6) && !((rr == 0 || rr == 7) && cc
                        < c) ==> occ_at(#[trigger] b.grid(), rr, cc) is None,
            decreases 8 - c,
        {
            let piece = back_rank(c);
            b.set_square(0, c, Some((piece, false)));
            b.set_square(7, c, Some((piece, true)));
            c += 1;
        }

        b
    }
}

/// Executable mirror of `back_rank_piece`.
fn back_rank(c: usize) -> (p: Piece)
    requires
        c < 8,
    ensures
        p == back_rank_piece(c as int),
{
    if c == 0 || c == 7 {
        Piece::R
    } else if c == 1 || c == 6 {
        Piece::N
    } else if c == 2 || c == 5 {
        Piece::B
    } else if c == 3 {
        Piece::Q
    } else {
        Piece::K
    }
}

} // verus!
