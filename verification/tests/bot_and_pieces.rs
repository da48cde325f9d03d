use chess_engine::board::Board;
use chess_engine::board::Piece;
use chess_engine::board::Square;
use chess_engine::bot::choose_bot_move;
use chess_engine::piece::Color;
use chess_engine::piece::PieceType;
use chess_engine::placement::parse_and_make_move;
use chess_engine::placement::MoveOutcome;

#[test]
fn bot_move_from_the_initial_position_replays_cleanly() {
    for _ in 0..20 {
        let mut board = Board::new();
        let text = choose_bot_move(&board).expect("black has moves at the start");
        let outcome = parse_and_make_move(&mut board, &text, false, None);
        assert_eq!(outcome, MoveOutcome::Applied);
    }
}

#[test]
fn bot_reports_no_move_when_black_has_none() {
    let board = Board {
        squares: vec![Square { piece: None }; 64],
        last_move: None,
        w_king_pos: (7, 4),
        b_king_pos: (0, 4),
        w_in_check: false,
        b_in_check: false,
    };
    assert_eq!(choose_bot_move(&board), None);
}

#[test]
fn bot_move_text_is_two_coordinate_tokens() {
    let board = Board::new();
    let text = choose_bot_move(&board).expect("black has moves at the start");
    let parts: Vec<&str> = text.split(' ').collect();
    assert_eq!(parts.len(), 2);
    for part in parts {
        assert_eq!(part.len(), 2);
        let file = part.as_bytes()[0];
        let rank = part.as_bytes()[1];
        assert!((b'a'..=b'h').contains(&file));
        assert!((b'1'..=b'8').contains(&rank));
    }
}

#[test]
fn color_opposite_swaps_the_sides() {
    assert_eq!(Color::White.opposite(), Color::Black);
    assert_eq!(Color::Black.opposite(), Color::White);
    assert_eq!(Color::White.opposite().opposite(), Color::White);
}

#[test]
fn piece_type_letters_match_algebraic_notation() {
    assert_eq!(PieceType::King.to_char(), 'K');
    assert_eq!(PieceType::Queen.to_char(), 'Q');
    assert_eq!(PieceType::Rook.to_char(), 'R');
    assert_eq!(PieceType::Bishop.to_char(), 'B');
    assert_eq!(PieceType::Knight.to_char(), 'N');
    assert_eq!(PieceType::Pawn.to_char(), 'P');
}

#[test]
fn piece_letters_are_cased_by_side() {
    let wn = chess_engine::piece::Piece::new(PieceType::Knight, Color::White);
    assert_eq!(wn.piece_type, PieceType::Knight);
    assert_eq!(wn.color, Color::White);
    assert_eq!(wn.to_char(), 'N');
    let bq = chess_engine::piece::Piece::new(PieceType::Queen, Color::Black);
    assert_eq!(bq.to_char(), 'q');
    let bk = chess_engine::piece::Piece::new(PieceType::King, Color::Black);
    assert_eq!(bk.to_char(), 'k');
}

#[test]
fn update_check_status_tracks_an_attacked_king() {
    let mut board = Board {
        squares: vec![Square { piece: None }; 64],
        last_move: None,
        w_king_pos: (7, 4),
        b_king_pos: (0, 4),
        w_in_check: false,
        b_in_check: false,
    };
    board.squares[4].piece = Some((Piece::K, false));
    board.squares[7 * 8 + 4].piece = Some((Piece::K, true));
    board.squares[3 * 8 + 4].piece = Some((Piece::R, true));
    board.update_check_status(false);
    assert!(board.b_in_check);
    board.update_check_status(true);
    assert!(!board.w_in_check);
}
