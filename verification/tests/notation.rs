use chess_engine::notation::encode_position;
use chess_engine::notation::parse_move_text;
use chess_engine::notation::parse_position;

#[test]
fn parse_position_decodes_algebraic_coordinates() {
    assert_eq!(parse_position("a1"), Some((7, 0)));
    assert_eq!(parse_position("a8"), Some((0, 0)));
    assert_eq!(parse_position("h1"), Some((7, 7)));
    assert_eq!(parse_position("h8"), Some((0, 7)));
    assert_eq!(parse_position("e2"), Some((6, 4)));
    assert_eq!(parse_position("e4"), Some((4, 4)));
}

#[test]
fn parse_position_rejects_malformed_tokens() {
    assert_eq!(parse_position(""), None);
    assert_eq!(parse_position("e"), None);
    assert_eq!(parse_position("e22"), None);
    assert_eq!(parse_position("i2"), None);
    assert_eq!(parse_position("e9"), None);
    assert_eq!(parse_position("e0"), None);
    assert_eq!(parse_position("E2"), None);
    assert_eq!(parse_position("2e"), None);
}

#[test]
fn encode_then_parse_is_identity_on_all_squares() {
    for r in 0..8usize {
        for c in 0..8usize {
            let text = encode_position(r, c);
            assert_eq!(text.len(), 2);
            assert_eq!(parse_position(&text), Some((r, c)));
        }
    }
}

#[test]
fn encode_position_uses_algebraic_notation() {
    assert_eq!(encode_position(6, 4), "e2");
    assert_eq!(encode_position(4, 4), "e4");
    assert_eq!(encode_position(7, 0), "a1");
    assert_eq!(encode_position(0, 7), "h8");
}

#[test]
fn parse_move_text_splits_two_tokens() {
    assert_eq!(parse_move_text("e2 e4"), Some(((6, 4), (4, 4))));
    assert_eq!(parse_move_text("  e2   e4  "), Some(((6, 4), (4, 4))));
    assert_eq!(parse_move_text("e2\te4"), Some(((6, 4), (4, 4))));
}

#[test]
fn parse_move_text_rejects_other_shapes() {
    assert_eq!(parse_move_text(""), None);
    assert_eq!(parse_move_text("e2"), None);
    assert_eq!(parse_move_text("e2 e4 e5"), None);
    assert_eq!(parse_move_text("e2 z9"), None);
    assert_eq!(parse_move_text("e2e4"), None);
}
