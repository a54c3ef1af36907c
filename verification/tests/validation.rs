//! Move validation tests: piece movement rules, checks, and the stable
//! rejection reason tokens.

use underchex::BoardState;
use underchex::Color;
use underchex::HexCoord;
use underchex::LanceVariant;
use underchex::Piece;
use underchex::PieceType;
use underchex::is_valid_cell;
use underchex::validate_move;

#[test]
fn test_center_cell_is_valid() {
    assert!(is_valid_cell(HexCoord::new(0, 0)));
}

#[test]
fn test_corner_at_max_radius_is_valid() {
    assert!(is_valid_cell(HexCoord::new(4, 0)));
}

#[test]
fn test_cell_outside_board_is_invalid() {
    assert!(!is_valid_cell(HexCoord::new(5, 0)));
}

#[test]
fn test_cell_violating_constraint_is_invalid() {
    assert!(!is_valid_cell(HexCoord::new(3, 3)));
}

#[test]
fn test_king_can_move_to_adjacent_empty_cell() {
    let mut board: BoardState = BoardState::new();
    board.insert(HexCoord::new(0, 0).to_key(), Piece::new(PieceType::King, Color::White));

    let result = validate_move(&board, HexCoord::new(0, 0), HexCoord::new(1, 0), Color::White);
    assert!(result.legal);
}

#[test]
fn test_king_cannot_move_two_squares() {
    let mut board: BoardState = BoardState::new();
    board.insert(HexCoord::new(0, 0).to_key(), Piece::new(PieceType::King, Color::White));

    let result = validate_move(&board, HexCoord::new(0, 0), HexCoord::new(2, 0), Color::White);
    assert!(!result.legal);
}

#[test]
fn test_king_can_capture_enemy() {
    let mut board: BoardState = BoardState::new();
    board.insert(HexCoord::new(0, 0).to_key(), Piece::new(PieceType::King, Color::White));
    board.insert(HexCoord::new(1, 0).to_key(), Piece::new(PieceType::Pawn, Color::Black));

    let result = validate_move(&board, HexCoord::new(0, 0), HexCoord::new(1, 0), Color::White);
    assert!(result.legal);
    assert!(result.capture);
}

#[test]
fn test_queen_can_slide_multiple_squares() {
    let mut board: BoardState = BoardState::new();
    board.insert(HexCoord::new(0, 0).to_key(), Piece::new(PieceType::Queen, Color::White));

    let result = validate_move(&board, HexCoord::new(0, 0), HexCoord::new(0, -3), Color::White);
    assert!(result.legal);
}

#[test]
fn test_queen_cannot_jump_over_pieces() {
    let mut board: BoardState = BoardState::new();
    board.insert(HexCoord::new(0, 0).to_key(), Piece::new(PieceType::Queen, Color::White));
    board.insert(HexCoord::new(0, -1).to_key(), Piece::new(PieceType::Pawn, Color::White));

    let result = validate_move(&board, HexCoord::new(0, 0), HexCoord::new(0, -3), Color::White);
    assert!(!result.legal);
}

#[test]
fn test_white_pawn_moves_north() {
    let mut board: BoardState = BoardState::new();
    board.insert(HexCoord::new(0, 2).to_key(), Piece::new(PieceType::Pawn, Color::White));

    let result = validate_move(&board, HexCoord::new(0, 2), HexCoord::new(0, 1), Color::White);
    assert!(result.legal);
}

#[test]
fn test_white_pawn_cannot_move_south() {
    let mut board: BoardState = BoardState::new();
    board.insert(HexCoord::new(0, 2).to_key(), Piece::new(PieceType::Pawn, Color::White));

    let result = validate_move(&board, HexCoord::new(0, 2), HexCoord::new(0, 3), Color::White);
    assert!(!result.legal);
}

#[test]
fn test_knight_leaps_to_valid_target() {
    let mut board: BoardState = BoardState::new();
    board.insert(HexCoord::new(0, 0).to_key(), Piece::new(PieceType::Knight, Color::White));

    let result = validate_move(&board, HexCoord::new(0, 0), HexCoord::new(1, -2), Color::White);
    assert!(result.legal);
}

#[test]
fn test_knight_can_jump_over_pieces() {
    let mut board: BoardState = BoardState::new();
    board.insert(HexCoord::new(0, 0).to_key(), Piece::new(PieceType::Knight, Color::White));
    board.insert(HexCoord::new(0, -1).to_key(), Piece::new(PieceType::Pawn, Color::White));
    board.insert(HexCoord::new(1, -1).to_key(), Piece::new(PieceType::Pawn, Color::Black));

    let result = validate_move(&board, HexCoord::new(0, 0), HexCoord::new(1, -2), Color::White);
    assert!(result.legal);
}

#[test]
fn test_lance_a_slides_north() {
    let mut board: BoardState = BoardState::new();
    board.insert(HexCoord::new(0, 2).to_key(), Piece::lance(Color::White, LanceVariant::A));

    let result = validate_move(&board, HexCoord::new(0, 2), HexCoord::new(0, -2), Color::White);
    assert!(result.legal);
}

#[test]
fn test_lance_a_cannot_move_ne() {
    let mut board: BoardState = BoardState::new();
    board.insert(HexCoord::new(0, 2).to_key(), Piece::lance(Color::White, LanceVariant::A));

    let result = validate_move(&board, HexCoord::new(0, 2), HexCoord::new(2, 0), Color::White);
    assert!(!result.legal);
}

#[test]
fn test_chariot_slides_ne() {
    let mut board: BoardState = BoardState::new();
    board.insert(HexCoord::new(0, 0).to_key(), Piece::new(PieceType::Chariot, Color::White));

    let result = validate_move(&board, HexCoord::new(0, 0), HexCoord::new(3, -3), Color::White);
    assert!(result.legal);
}

#[test]
fn test_chariot_cannot_move_north() {
    let mut board: BoardState = BoardState::new();
    board.insert(HexCoord::new(0, 0).to_key(), Piece::new(PieceType::Chariot, Color::White));

    let result = validate_move(&board, HexCoord::new(0, 0), HexCoord::new(0, -2), Color::White);
    assert!(!result.legal);
}

#[test]
fn test_king_cannot_move_into_check() {
    let mut board: BoardState = BoardState::new();
    board.insert(HexCoord::new(0, 0).to_key(), Piece::new(PieceType::King, Color::White));
    board.insert(HexCoord::new(1, -4).to_key(), Piece::new(PieceType::Queen, Color::Black));

    let result = validate_move(&board, HexCoord::new(0, 0), HexCoord::new(1, 0), Color::White);
    assert!(!result.legal);
    assert_eq!(result.reason.as_deref(), Some("movesIntoCheck"));
}

#[test]
fn test_cannot_move_opponents_piece() {
    let mut board: BoardState = BoardState::new();
    board.insert(HexCoord::new(0, -2).to_key(), Piece::new(PieceType::Pawn, Color::Black));

    let result = validate_move(&board, HexCoord::new(0, -2), HexCoord::new(0, -1), Color::White);
    assert!(!result.legal);
    assert_eq!(result.reason.as_deref(), Some("notYourPiece"));
}

#[test]
fn test_cannot_move_from_empty_cell() {
    let mut board: BoardState = BoardState::new();
    board.insert(HexCoord::new(0, 0).to_key(), Piece::new(PieceType::King, Color::White));

    let result = validate_move(&board, HexCoord::new(1, 0), HexCoord::new(2, 0), Color::White);
    assert!(!result.legal);
    assert_eq!(result.reason.as_deref(), Some("noPieceAtSource"));
}

#[test]
fn test_invalid_destination_reason() {
    let mut board: BoardState = BoardState::new();
    board.insert(HexCoord::new(0, 0).to_key(), Piece::new(PieceType::Queen, Color::White));

    let result = validate_move(&board, HexCoord::new(0, 0), HexCoord::new(9, 9), Color::White);
    assert!(!result.legal);
    assert_eq!(result.reason.as_deref(), Some("invalidDestination"));
}

#[test]
fn test_illegal_move_reason() {
    let mut board: BoardState = BoardState::new();
    board.insert(HexCoord::new(0, 0).to_key(), Piece::new(PieceType::King, Color::White));

    // Two cells away is no king move at all.
    let result = validate_move(&board, HexCoord::new(0, 0), HexCoord::new(2, -2), Color::White);
    assert!(!result.legal);
    assert_eq!(result.reason.as_deref(), Some("illegalMove"));
}
