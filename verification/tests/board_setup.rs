use chess_engine::board::Board;
use chess_engine::board::Piece;

fn count_pieces(board: &Board, kind: Piece) -> usize {
    board
        .squares
        .iter()
        .filter(|s| matches!(s.piece, Some((p, _)) if p == kind))
        .count()
}

fn count_side(board: &Board, kind: Piece, white: bool) -> usize {
    board
        .squares
        .iter()
        .filter(|s| s.piece == Some((kind, white)))
        .count()
}

#[test]
fn initial_board_has_the_full_armies() {
    let board = Board::new();
    assert_eq!(count_pieces(&board, Piece::P), 16);
    assert_eq!(count_pieces(&board, Piece::R), 4);
    assert_eq!(count_pieces(&board, Piece::N), 4);
    assert_eq!(count_pieces(&board, Piece::B), 4);
    assert_eq!(count_pieces(&board, Piece::Q), 2);
    assert_eq!(count_pieces(&board, Piece::K), 2);
    for kind in [Piece::P, Piece::R, Piece::N, Piece::B, Piece::Q, Piece::K] {
        assert_eq!(count_side(&board, kind, true), count_side(&board, kind, false));
    }
}

#[test]
fn initial_board_is_mirrored_across_the_midline() {
    let board = Board::new();
    for r in 0..8usize {
        for c in 0..8usize {
            let here = board.squares[r * 8 + c].piece;
            let there = board.squares[(7 - r) * 8 + c].piece;
            match (here, there) {
                (None, None) => {}
                (Some((p, side)), Some((q, other))) => {
                    assert_eq!(p, q);
                    assert_eq!(side, !other);
                }
                _ => panic!("position is not mirrored at row {} column {}", r, c),
            }
        }
    }
}

#[test]
fn initial_kings_stand_on_their_squares() {
    let board = Board::new();
    assert_eq!(board.w_king_pos, (7, 4));
    assert_eq!(board.b_king_pos, (0, 4));
    assert_eq!(board.squares[7 * 8 + 4].piece, Some((Piece::K, true)));
    assert_eq!(board.squares[4].piece, Some((Piece::K, false)));
    assert!(board.last_move.is_none());
    assert!(!board.w_in_check);
    assert!(!board.b_in_check);
}

#[test]
fn initial_back_ranks_are_laid_out_correctly() {
    let board = Board::new();
    let order = [Piece::R, Piece::N, Piece::B, Piece::Q, Piece::K, Piece::B, Piece::N, Piece::R];
    for c in 0..8usize {
        assert_eq!(board.squares[c].piece, Some((order[c], false)));
        assert_eq!(board.squares[8 + c].piece, Some((Piece::P, false)));
        assert_eq!(board.squares[6 * 8 + c].piece, Some((Piece::P, true)));
        assert_eq!(board.squares[7 * 8 + c].piece, Some((order[c], true)));
    }
}
