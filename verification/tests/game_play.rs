use chess_engine::board::Board;
use chess_engine::board::Piece;
use chess_engine::board::Square;
use chess_engine::placement::parse_and_make_move;
use chess_engine::placement::MoveOutcome;

fn apply(board: &mut Board, text: &str, white: bool) -> MoveOutcome {
    parse_and_make_move(board, text, white, None)
}

fn at(board: &Board, r: usize, c: usize) -> Option<(Piece, bool)> {
    board.squares[r * 8 + c].piece
}

#[test]
fn opening_moves_are_applied() {
    let mut board = Board::new();
    assert_eq!(apply(&mut board, "e2 e4", true), MoveOutcome::Applied);
    assert_eq!(at(&board, 6, 4), None);
    assert_eq!(at(&board, 4, 4), Some((Piece::P, true)));
    assert_eq!(apply(&mut board, "e7 e5", false), MoveOutcome::Applied);
    assert_eq!(at(&board, 1, 4), None);
    assert_eq!(at(&board, 3, 4), Some((Piece::P, false)));
}

#[test]
fn blocked_pawn_push_is_rejected() {
    let mut board = Board::new();
    assert_eq!(apply(&mut board, "e2 e4", true), MoveOutcome::Applied);
    assert_eq!(apply(&mut board, "e7 e5", false), MoveOutcome::Applied);
    // the two pawns now face each other; a straight push is not a capture
    assert_eq!(apply(&mut board, "e4 e5", true), MoveOutcome::Rejected);
}

#[test]
fn capturing_a_piece_of_the_same_side_is_rejected() {
    let mut board = Board::new();
    assert_eq!(apply(&mut board, "d2 d4", true), MoveOutcome::Applied);
    assert_eq!(apply(&mut board, "e7 e5", false), MoveOutcome::Applied);
    // White captures on e5
    assert_eq!(apply(&mut board, "d4 e5", true), MoveOutcome::Applied);
    assert_eq!(at(&board, 3, 4), Some((Piece::P, true)));
    assert_eq!(apply(&mut board, "d7 d6", false), MoveOutcome::Applied);
    // the knight may not land on White's own pawn on e5
    assert_eq!(apply(&mut board, "g1 f3", true), MoveOutcome::Applied);
    assert_eq!(apply(&mut board, "b8 c6", false), MoveOutcome::Applied);
    let before = board.clone_board();
    assert_eq!(apply(&mut board, "f3 e5", true), MoveOutcome::Rejected);
    assert_eq!(board.squares, before.squares);
    assert_eq!(board.last_move, before.last_move);
}

#[test]
fn moving_from_an_empty_square_or_with_the_wrong_side_is_rejected() {
    let mut board = Board::new();
    assert_eq!(apply(&mut board, "e4 e5", true), MoveOutcome::Rejected);
    assert_eq!(apply(&mut board, "e7 e5", true), MoveOutcome::Rejected);
    assert_eq!(apply(&mut board, "e2 e4", false), MoveOutcome::Rejected);
    assert_eq!(apply(&mut board, "e2", true), MoveOutcome::Rejected);
    assert_eq!(apply(&mut board, "e2 e4 e5", true), MoveOutcome::Rejected);
    assert_eq!(apply(&mut board, "z2 e4", true), MoveOutcome::Rejected);
}

#[test]
fn wrong_shapes_are_rejected_for_every_piece_kind() {
    let mut board = Board::new();
    assert_eq!(apply(&mut board, "a1 b3", true), MoveOutcome::Rejected); // rook diagonal-ish
    assert_eq!(apply(&mut board, "c1 c3", true), MoveOutcome::Rejected); // bishop straight
    assert_eq!(apply(&mut board, "b1 b3", true), MoveOutcome::Rejected); // knight straight
    assert_eq!(apply(&mut board, "d1 e3", true), MoveOutcome::Rejected); // queen knight-shape
    assert_eq!(apply(&mut board, "e1 e3", true), MoveOutcome::Rejected); // king two squares
    assert_eq!(apply(&mut board, "e1 e1", true), MoveOutcome::Rejected); // king non-move
}

#[test]
fn en_passant_removes_the_pawn_from_its_actual_square() {
    let mut board = Board::new();
    assert_eq!(apply(&mut board, "a2 a3", true), MoveOutcome::Applied);
    assert_eq!(apply(&mut board, "d7 d5", false), MoveOutcome::Applied);
    assert_eq!(apply(&mut board, "a3 a4", true), MoveOutcome::Applied);
    assert_eq!(apply(&mut board, "d5 d4", false), MoveOutcome::Applied);
    // White's double push lands beside the black pawn on the same rank
    assert_eq!(apply(&mut board, "e2 e4", true), MoveOutcome::Applied);
    assert_eq!(at(&board, 4, 4), Some((Piece::P, true)));
    assert_eq!(at(&board, 4, 3), Some((Piece::P, false)));
    // Black captures diagonally onto the empty square behind the pawn
    assert_eq!(apply(&mut board, "d4 e3", false), MoveOutcome::Applied);
    assert_eq!(at(&board, 5, 4), Some((Piece::P, false)));
    // the captured pawn disappears from e4, not from the destination
    assert_eq!(at(&board, 4, 4), None);
    assert_eq!(at(&board, 4, 3), None);
}

#[test]
fn en_passant_expires_after_one_ply() {
    let mut board = Board::new();
    assert_eq!(apply(&mut board, "a2 a3", true), MoveOutcome::Applied);
    assert_eq!(apply(&mut board, "d7 d5", false), MoveOutcome::Applied);
    assert_eq!(apply(&mut board, "a3 a4", true), MoveOutcome::Applied);
    assert_eq!(apply(&mut board, "d5 d4", false), MoveOutcome::Applied);
    assert_eq!(apply(&mut board, "e2 e4", true), MoveOutcome::Applied);
    // Black plays something else instead of capturing at once
    assert_eq!(apply(&mut board, "h7 h6", false), MoveOutcome::Applied);
    assert_eq!(apply(&mut board, "h2 h3", true), MoveOutcome::Applied);
    // the en-passant capture is no longer available
    assert_eq!(apply(&mut board, "d4 e3", false), MoveOutcome::Rejected);
}

#[test]
fn promotion_with_a_valid_choice_places_the_chosen_piece() {
    let mut board = Board::new();
    // clear a path: the white a-pawn captures through to b7 and promotes on a8
    assert_eq!(apply(&mut board, "a2 a4", true), MoveOutcome::Applied);
    assert_eq!(apply(&mut board, "b7 b5", false), MoveOutcome::Applied);
    assert_eq!(apply(&mut board, "a4 b5", true), MoveOutcome::Applied);
    assert_eq!(apply(&mut board, "h7 h6", false), MoveOutcome::Applied);
    assert_eq!(apply(&mut board, "b5 b6", true), MoveOutcome::Applied);
    assert_eq!(apply(&mut board, "h6 h5", false), MoveOutcome::Applied);
    assert_eq!(apply(&mut board, "b6 a7", true), MoveOutcome::Applied);
    assert_eq!(apply(&mut board, "h5 h4", false), MoveOutcome::Applied);
    let outcome = parse_and_make_move(&mut board, "a7 b8", true, Some(Piece::Q));
    assert_eq!(outcome, MoveOutcome::Applied);
    assert_eq!(at(&board, 0, 1), Some((Piece::Q, true)));
}

#[test]
fn promotion_without_a_choice_fails_but_the_pawn_advances() {
    let mut board = Board::new();
    assert_eq!(apply(&mut board, "a2 a4", true), MoveOutcome::Applied);
    assert_eq!(apply(&mut board, "b7 b5", false), MoveOutcome::Applied);
    assert_eq!(apply(&mut board, "a4 b5", true), MoveOutcome::Applied);
    assert_eq!(apply(&mut board, "h7 h6", false), MoveOutcome::Applied);
    assert_eq!(apply(&mut board, "b5 b6", true), MoveOutcome::Applied);
    assert_eq!(apply(&mut board, "h6 h5", false), MoveOutcome::Applied);
    assert_eq!(apply(&mut board, "b6 a7", true), MoveOutcome::Applied);
    assert_eq!(apply(&mut board, "h5 h4", false), MoveOutcome::Applied);
    let outcome = parse_and_make_move(&mut board, "a7 b8", true, None);
    assert_eq!(outcome, MoveOutcome::PromotionFailed);
    assert_eq!(at(&board, 0, 1), Some((Piece::P, true)));
    // a king or pawn choice is just as unusable
    let mut second = Board::new();
    assert_eq!(apply(&mut second, "a2 a4", true), MoveOutcome::Applied);
    assert_eq!(apply(&mut second, "b7 b5", false), MoveOutcome::Applied);
    assert_eq!(apply(&mut second, "a4 b5", true), MoveOutcome::Applied);
    assert_eq!(apply(&mut second, "h7 h6", false), MoveOutcome::Applied);
    assert_eq!(apply(&mut second, "b5 b6", true), MoveOutcome::Applied);
    assert_eq!(apply(&mut second, "h6 h5", false), MoveOutcome::Applied);
    assert_eq!(apply(&mut second, "b6 a7", true), MoveOutcome::Applied);
    assert_eq!(apply(&mut second, "h5 h4", false), MoveOutcome::Applied);
    let outcome = parse_and_make_move(&mut second, "a7 b8", true, Some(Piece::K));
    assert_eq!(outcome, MoveOutcome::PromotionFailed);
    assert_eq!(at(&second, 0, 1), Some((Piece::P, true)));
}

#[test]
fn check_flags_are_recomputed_after_each_move() {
    let mut board = Board::new();
    assert_eq!(apply(&mut board, "f2 f3", true), MoveOutcome::Applied);
    assert_eq!(apply(&mut board, "e7 e5", false), MoveOutcome::Applied);
    assert_eq!(apply(&mut board, "g2 g4", true), MoveOutcome::Applied);
    assert!(!board.w_in_check);
    assert_eq!(apply(&mut board, "d8 h4", false), MoveOutcome::Applied);
    assert!(board.w_in_check);
    assert!(!board.b_in_check);
}

#[test]
fn fools_mate_is_detected_as_checkmate() {
    let mut board = Board::new();
    assert_eq!(apply(&mut board, "f2 f3", true), MoveOutcome::Applied);
    assert_eq!(apply(&mut board, "e7 e5", false), MoveOutcome::Applied);
    assert_eq!(apply(&mut board, "g2 g4", true), MoveOutcome::Applied);
    assert_eq!(apply(&mut board, "d8 h4", false), MoveOutcome::Applied);
    assert!(board.is_checkmate(true));
    assert!(!board.is_stalemate(true));
    assert!(!board.is_checkmate(false));
}

fn empty_board() -> Board {
    Board {
        squares: vec![Square { piece: None }; 64],
        last_move: None,
        w_king_pos: (7, 4),
        b_king_pos: (0, 4),
        w_in_check: false,
        b_in_check: false,
    }
}

#[test]
fn cornered_king_with_attacker_is_checkmate_without_it_the_game_goes_on() {
    // black king on a8, white queen on b7 guarded by the white king on b6
    let mut board = empty_board();
    board.squares[0].piece = Some((Piece::K, false));
    board.squares[8 + 1].piece = Some((Piece::Q, true));
    board.squares[2 * 8 + 1].piece = Some((Piece::K, true));
    board.b_king_pos = (0, 0);
    board.w_king_pos = (2, 1);
    assert!(board.is_checkmate(false));
    assert!(!board.is_stalemate(false));

    // with the attacker removed the king has a free square: ongoing
    let mut without = empty_board();
    without.squares[0].piece = Some((Piece::K, false));
    without.squares[2 * 8 + 1].piece = Some((Piece::K, true));
    without.b_king_pos = (0, 0);
    without.w_king_pos = (2, 1);
    assert!(!without.is_checkmate(false));
    assert!(!without.is_stalemate(false));
}

#[test]
fn boxed_in_king_without_check_is_stalemate() {
    // black king on a8, white queen on c7: every king move is attacked but
    // the king itself is not
    let mut board = empty_board();
    board.squares[0].piece = Some((Piece::K, false));
    board.squares[8 + 2].piece = Some((Piece::Q, true));
    board.squares[7 * 8 + 7].piece = Some((Piece::K, true));
    board.b_king_pos = (0, 0);
    board.w_king_pos = (7, 7);
    assert!(board.is_stalemate(false));
    assert!(!board.is_checkmate(false));
}

#[test]
fn blocked_sliders_are_rejected() {
    let mut board = Board::new();
    let before = board.clone_board();
    // bishop over the b2 pawn, rook over the a2 pawn, queen over the d2 pawn
    assert_eq!(apply(&mut board, "c1 a3", true), MoveOutcome::Rejected);
    assert_eq!(apply(&mut board, "a1 a3", true), MoveOutcome::Rejected);
    assert_eq!(apply(&mut board, "d1 d3", true), MoveOutcome::Rejected);
    assert_eq!(board.squares, before.squares);
    // after the pawn steps aside the bishop's diagonal is open
    assert_eq!(apply(&mut board, "b2 b3", true), MoveOutcome::Applied);
    assert_eq!(apply(&mut board, "h7 h6", false), MoveOutcome::Applied);
    assert_eq!(apply(&mut board, "c1 b2", true), MoveOutcome::Applied);
}

#[test]
fn a_move_exposing_the_own_king_is_rejected() {
    // the white queen shields the white king from a black rook on the e-file
    let mut board = empty_board();
    board.squares[7 * 8 + 4].piece = Some((Piece::K, true));
    board.squares[6 * 8 + 4].piece = Some((Piece::Q, true));
    board.squares[4].piece = Some((Piece::R, false));
    board.squares[0].piece = Some((Piece::K, false));
    board.w_king_pos = (7, 4);
    board.b_king_pos = (0, 0);
    let before = board.clone_board();
    // stepping off the file would leave the king attacked
    assert_eq!(apply(&mut board, "e2 d3", true), MoveOutcome::Rejected);
    assert_eq!(board.squares, before.squares);
    assert_eq!(board.last_move, before.last_move);
    // advancing along the file keeps the shield and is accepted
    assert_eq!(apply(&mut board, "e2 e5", true), MoveOutcome::Applied);
}
