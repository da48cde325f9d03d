use chess_engine::board::Board;
use chess_engine::board::Piece;
use chess_engine::board::Square;
use chess_engine::move_generation::gen_all_moves_for_color;
use chess_engine::move_generation::generate_valid_moves;
use chess_engine::notation::encode_position;
use chess_engine::placement::parse_and_make_move;

fn empty_board() -> Board {
    Board {
        squares: vec![Square { piece: None }; 64],
        last_move: None,
        w_king_pos: (7, 4),
        b_king_pos: (0, 4),
        w_in_check: false,
        b_in_check: false,
    }
}

#[test]
fn lone_rook_in_the_middle_has_fourteen_moves() {
    let mut board = empty_board();
    board.squares[4 * 8 + 4].piece = Some((Piece::R, true));
    let moves = generate_valid_moves(&board, true);
    assert_eq!(moves.len(), 14);
    for ((fr, fc), (tr, tc)) in &moves {
        assert_eq!((*fr, *fc), (4, 4));
        assert!((*tr == 4) != (*tc == 4));
    }
}

#[test]
fn lone_bishop_in_the_corner_has_seven_moves() {
    let mut board = empty_board();
    board.squares[0].piece = Some((Piece::B, false));
    let moves = generate_valid_moves(&board, false);
    assert_eq!(moves.len(), 7);
    for ((fr, fc), (tr, tc)) in &moves {
        assert_eq!((*fr, *fc), (0, 0));
        assert_eq!(*tr, *tc);
    }
}

#[test]
fn lone_knight_in_the_middle_has_eight_moves() {
    let mut board = empty_board();
    board.squares[4 * 8 + 4].piece = Some((Piece::N, true));
    let moves = generate_valid_moves(&board, true);
    assert_eq!(moves.len(), 8);
}

#[test]
fn king_moves_a_single_step_only() {
    let mut board = empty_board();
    board.squares[4 * 8 + 4].piece = Some((Piece::K, true));
    let moves = generate_valid_moves(&board, true);
    assert_eq!(moves.len(), 8);
    for ((_, _), (tr, tc)) in &moves {
        assert!(tr.abs_diff(4) <= 1 && tc.abs_diff(4) <= 1);
    }
}

#[test]
fn initial_position_has_twenty_moves_per_side() {
    let board = Board::new();
    assert_eq!(gen_all_moves_for_color(&board, true).len(), 20);
    assert_eq!(gen_all_moves_for_color(&board, false).len(), 20);
}

#[test]
fn sliding_pieces_stop_at_blockers() {
    let mut board = empty_board();
    board.squares[4 * 8 + 4].piece = Some((Piece::R, true));
    board.squares[4 * 8 + 6].piece = Some((Piece::P, true));
    board.squares[2 * 8 + 4].piece = Some((Piece::P, false));
    let moves = generate_valid_moves(&board, true);
    // to the right: only (4,5); upward: (3,4) and the capture on (2,4);
    // the pawn contributes its own single push
    assert!(moves.contains(&((4, 4), (4, 5))));
    assert!(!moves.contains(&((4, 4), (4, 6))));
    assert!(!moves.contains(&((4, 4), (4, 7))));
    assert!(moves.contains(&((4, 4), (2, 4))));
    assert!(!moves.contains(&((4, 4), (1, 4))));
}

#[test]
fn generation_leaves_the_board_untouched() {
    let board = Board::new();
    let snapshot = board.clone_board();
    let moves = generate_valid_moves(&board, true);
    assert!(!moves.is_empty());
    assert_eq!(board.squares, snapshot.squares);
    assert_eq!(board.last_move, snapshot.last_move);
    assert_eq!(board.w_king_pos, snapshot.w_king_pos);
    assert_eq!(board.b_king_pos, snapshot.b_king_pos);
    assert_eq!(board.w_in_check, snapshot.w_in_check);
    assert_eq!(board.b_in_check, snapshot.b_in_check);
}

#[test]
fn applying_each_generated_move_to_a_copy_leaves_the_original_identical() {
    let board = Board::new();
    let snapshot = board.clone_board();
    let moves = generate_valid_moves(&board, true);
    for ((fr, fc), (tr, tc)) in &moves {
        let mut copy = board.clone_board();
        let text = format!("{} {}", encode_position(*fr, *fc), encode_position(*tr, *tc));
        parse_and_make_move(&mut copy, &text, true, None);
        assert_eq!(board.squares, snapshot.squares);
        assert_eq!(board.last_move, snapshot.last_move);
        assert_eq!(board.w_king_pos, snapshot.w_king_pos);
        assert_eq!(board.b_king_pos, snapshot.b_king_pos);
        assert_eq!(board.w_in_check, snapshot.w_in_check);
        assert_eq!(board.b_in_check, snapshot.b_in_check);
    }
}

#[test]
fn the_two_generator_entry_points_agree() {
    let board = Board::new();
    assert_eq!(generate_valid_moves(&board, true), gen_all_moves_for_color(&board, true));
    assert_eq!(generate_valid_moves(&board, false), gen_all_moves_for_color(&board, false));
    // and repeated calls return the identical vector
    assert_eq!(generate_valid_moves(&board, true), generate_valid_moves(&board, true));
}

#[test]
fn generated_moves_hold_no_duplicates() {
    let mut board = Board::new();
    // reach a position where en passant is available, the corner where a
    // duplicated diagonal could slip in
    assert!(parse_and_make_move(&mut board, "a2 a3", true, None) == chess_engine::placement::MoveOutcome::Applied);
    assert!(parse_and_make_move(&mut board, "d7 d5", false, None) == chess_engine::placement::MoveOutcome::Applied);
    assert!(parse_and_make_move(&mut board, "a3 a4", true, None) == chess_engine::placement::MoveOutcome::Applied);
    assert!(parse_and_make_move(&mut board, "d5 d4", false, None) == chess_engine::placement::MoveOutcome::Applied);
    assert!(parse_and_make_move(&mut board, "e2 e4", true, None) == chess_engine::placement::MoveOutcome::Applied);
    for side in [true, false] {
        let moves = generate_valid_moves(&board, side);
        for i in 0..moves.len() {
            for j in 0..moves.len() {
                if i != j {
                    assert_ne!(moves[i], moves[j]);
                }
            }
        }
    }
}
