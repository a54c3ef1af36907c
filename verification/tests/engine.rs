//! Geometry, move generation, evaluation, search, and game-flow tests.

use underchex::AIDifficulty;
use underchex::BoardState;
use underchex::CHECKMATE_VALUE;
use underchex::Color;
use underchex::Direction;
use underchex::GameStatus;
use underchex::HexCoord;
use underchex::LanceVariant;
use underchex::Piece;
use underchex::PieceType;
use underchex::TTEntryType;
use underchex::TablebaseRegistry;
use underchex::TranspositionTable;
use underchex::create_new_game;
use underchex::estimate_move_value;
use underchex::evaluate_position;
use underchex::find_best_move;
use underchex::generate_all_legal_moves;
use underchex::generate_legal_moves;
use underchex::generate_pseudo_legal_moves;
use underchex::get_ai_move;
use underchex::get_all_cells;
use underchex::get_centrality_bonus;
use underchex::get_direction;
use underchex::get_knight_targets;
use underchex::get_legal_moves;
use underchex::get_pawn_advancement_bonus;
use underchex::get_piece_value;
use underchex::hex_distance;
use underchex::is_in_check;
use underchex::is_player_turn;
use underchex::is_valid_cell;
use underchex::make_move;
use underchex::order_moves;
use underchex::quiescence_search;
use underchex::resign;
use underchex::SearchStats;

fn create_empty_board() -> BoardState {
    BoardState::new()
}

#[test]
fn test_is_valid_cell() {
    // Center is valid
    assert!(is_valid_cell(HexCoord::new(0, 0)));

    // Corners are valid
    assert!(is_valid_cell(HexCoord::new(4, 0)));
    assert!(is_valid_cell(HexCoord::new(-4, 0)));
    assert!(is_valid_cell(HexCoord::new(0, 4)));
    assert!(is_valid_cell(HexCoord::new(0, -4)));
    assert!(is_valid_cell(HexCoord::new(4, -4)));
    assert!(is_valid_cell(HexCoord::new(-4, 4)));

    // Outside is invalid
    assert!(!is_valid_cell(HexCoord::new(5, 0)));
    assert!(!is_valid_cell(HexCoord::new(3, 3)));
    assert!(!is_valid_cell(HexCoord::new(-3, -3)));
}

#[test]
fn test_get_all_cells_count() {
    let cells = get_all_cells();
    assert_eq!(cells.len(), 61);
}

#[test]
fn test_all_cells_valid_and_distinct() {
    let cells = get_all_cells();
    for c in &cells {
        assert!(is_valid_cell(*c));
    }
    for i in 0..cells.len() {
        for j in 0..i {
            assert_ne!(cells[i], cells[j]);
        }
    }
}

#[test]
fn test_hex_distance() {
    let a = HexCoord::new(0, 0);
    let b = HexCoord::new(2, -1);
    assert_eq!(hex_distance(a, b), 2);

    let c = HexCoord::new(-4, 4);
    assert_eq!(hex_distance(a, c), 4);
}

#[test]
fn test_hex_distance_symmetric_examples() {
    let cells = get_all_cells();
    for a in &cells {
        assert_eq!(hex_distance(*a, *a), 0);
        for b in &cells {
            assert_eq!(hex_distance(*a, *b), hex_distance(*b, *a));
        }
    }
}

#[test]
fn test_get_direction() {
    let origin = HexCoord::new(0, 0);

    assert_eq!(get_direction(origin, HexCoord::new(0, -2)), Some(Direction::N));
    assert_eq!(get_direction(origin, HexCoord::new(0, 2)), Some(Direction::S));
    assert_eq!(get_direction(origin, HexCoord::new(2, -2)), Some(Direction::NE));
    assert_eq!(get_direction(origin, HexCoord::new(-2, 2)), Some(Direction::SW));

    // Not aligned
    assert_eq!(get_direction(origin, HexCoord::new(1, 1)), None);
}

#[test]
fn test_knight_targets() {
    let targets = get_knight_targets(HexCoord::new(0, 0));
    assert_eq!(targets.len(), 6);
}

#[test]
fn test_pawn_moves() {
    let mut board = create_empty_board();
    let pawn = Piece::new(PieceType::Pawn, Color::White);
    let from = HexCoord::new(0, 2);
    board.insert(from.to_key(), pawn);

    let moves = generate_pseudo_legal_moves(&board, &pawn, from);
    assert_eq!(moves.len(), 1); // Only forward move
    assert_eq!(moves[0].to, HexCoord::new(0, 1));
}

#[test]
fn test_pawn_captures() {
    let mut board = create_empty_board();
    let white_pawn = Piece::new(PieceType::Pawn, Color::White);
    let black_pawn = Piece::new(PieceType::Pawn, Color::Black);

    let from = HexCoord::new(0, 2);
    board.insert(from.to_key(), white_pawn);

    // Enemy to capture at NE
    board.insert(HexCoord::new(1, 1).to_key(), black_pawn);

    let moves = generate_pseudo_legal_moves(&board, &white_pawn, from);
    // Forward + capture NE
    assert_eq!(moves.len(), 2);
    assert!(moves.iter().any(|m| m.to == HexCoord::new(1, 1) && m.captured.is_some()));
}

#[test]
fn test_pawn_promotion_moves() {
    let mut board = create_empty_board();
    let pawn = Piece::new(PieceType::Pawn, Color::White);
    let from = HexCoord::new(0, -3);
    board.insert(from.to_key(), pawn);

    let moves = generate_pseudo_legal_moves(&board, &pawn, from);
    // One forward step into the promotion rank, once per promotion target.
    assert_eq!(moves.len(), 4);
    for m in &moves {
        assert_eq!(m.to, HexCoord::new(0, -4));
        assert!(m.promotion.is_some());
    }
    let targets: Vec<PieceType> = moves.iter().map(|m| m.promotion.unwrap()).collect();
    assert!(targets.contains(&PieceType::Queen));
    assert!(targets.contains(&PieceType::Chariot));
    assert!(targets.contains(&PieceType::Lance));
    assert!(targets.contains(&PieceType::Knight));
}

#[test]
fn test_king_moves() {
    let mut board = create_empty_board();
    let king = Piece::new(PieceType::King, Color::White);
    let from = HexCoord::new(0, 0);
    board.insert(from.to_key(), king);

    let moves = generate_pseudo_legal_moves(&board, &king, from);
    assert_eq!(moves.len(), 6); // 6 directions
}

#[test]
fn test_knight_moves() {
    let mut board = create_empty_board();
    let knight = Piece::new(PieceType::Knight, Color::White);
    let from = HexCoord::new(0, 0);
    board.insert(from.to_key(), knight);

    let moves = generate_pseudo_legal_moves(&board, &knight, from);
    assert_eq!(moves.len(), 6); // 6 knight positions
}

#[test]
fn test_queen_moves_empty_board() {
    let mut board = create_empty_board();
    let queen = Piece::new(PieceType::Queen, Color::White);
    let from = HexCoord::new(0, 0);
    board.insert(from.to_key(), queen);

    let moves = generate_pseudo_legal_moves(&board, &queen, from);
    // Queen at center can reach many cells (4 in each of 6 directions)
    assert_eq!(moves.len(), 24);
}

#[test]
fn test_lance_a_moves() {
    let mut board = create_empty_board();
    let lance = Piece::lance(Color::White, LanceVariant::A);
    let from = HexCoord::new(0, 0);
    board.insert(from.to_key(), lance);

    let moves = generate_pseudo_legal_moves(&board, &lance, from);
    // Lance A moves N, S, NW, SE (4 rays x 4 cells each)
    assert_eq!(moves.len(), 16);
}

#[test]
fn test_lance_b_and_chariot_moves() {
    let mut board = create_empty_board();
    let lance = Piece::lance(Color::White, LanceVariant::B);
    let from = HexCoord::new(0, 0);
    board.insert(from.to_key(), lance);
    let moves = generate_pseudo_legal_moves(&board, &lance, from);
    assert_eq!(moves.len(), 16);

    let mut board2 = create_empty_board();
    let chariot = Piece::new(PieceType::Chariot, Color::White);
    board2.insert(from.to_key(), chariot);
    let moves2 = generate_pseudo_legal_moves(&board2, &chariot, from);
    assert_eq!(moves2.len(), 16);
}

#[test]
fn test_is_in_check() {
    let mut board = create_empty_board();

    // White king at center
    let white_king = Piece::new(PieceType::King, Color::White);
    board.insert(HexCoord::new(0, 0).to_key(), white_king);

    // Black queen attacking from the north
    let black_queen = Piece::new(PieceType::Queen, Color::Black);
    board.insert(HexCoord::new(0, -3).to_key(), black_queen);

    assert!(is_in_check(&board, Color::White));
    assert!(!is_in_check(&board, Color::Black));
}

#[test]
fn test_legal_moves_avoid_check() {
    let mut board = create_empty_board();

    // White king
    let white_king = Piece::new(PieceType::King, Color::White);
    board.insert(HexCoord::new(0, 0).to_key(), white_king);

    // Black queen attacking from north - king can't move north
    let black_queen = Piece::new(PieceType::Queen, Color::Black);
    board.insert(HexCoord::new(0, -3).to_key(), black_queen);

    let legal_moves = generate_legal_moves(&board, &white_king, HexCoord::new(0, 0));

    // King can't move N (into queen's line) but can move other directions
    assert!(!legal_moves.iter().any(|m| m.to == HexCoord::new(0, -1)));
    // But can move NE, NW, S, SE, SW
    assert!(legal_moves.len() < 6);
}

#[test]
fn test_attack_matches_capture_generation() {
    // A black pawn stands where a white pawn can capture it; the capture
    // target must read as attacked by White, and an attacked square must
    // have a matching pseudo-legal capture.
    let mut board = create_empty_board();
    let white_pawn = Piece::new(PieceType::Pawn, Color::White);
    let black_pawn = Piece::new(PieceType::Pawn, Color::Black);
    board.insert(HexCoord::new(0, 2).to_key(), white_pawn);
    board.insert(HexCoord::new(1, 1).to_key(), black_pawn);

    let moves = generate_all_legal_moves(&board, Color::White);
    for m in &moves {
        if m.captured.is_some() {
            assert!(underchex::is_attacked(&board, m.to, Color::White));
        }
    }
    assert!(underchex::is_attacked(&board, HexCoord::new(1, 1), Color::White));
    let pseudo = generate_pseudo_legal_moves(&board, &white_pawn, HexCoord::new(0, 2));
    assert!(pseudo.iter().any(|m| m.to == HexCoord::new(1, 1) && m.captured.is_some()));
}

#[test]
fn test_piece_values() {
    assert_eq!(get_piece_value(PieceType::Pawn), 100);
    assert_eq!(get_piece_value(PieceType::Queen), 900);
    assert_eq!(get_piece_value(PieceType::King), 0);
}

#[test]
fn test_centrality_bonus() {
    let center = HexCoord::new(0, 0);
    let edge = HexCoord::new(4, 0);

    assert!(get_centrality_bonus(center) > get_centrality_bonus(edge));
}

#[test]
fn test_pawn_advancement_values() {
    // White pawn two ranks in: progress 2/8, floor((2/8)^2 * 50) = 3.
    assert_eq!(get_pawn_advancement_bonus(HexCoord::new(0, 2), Color::White), 3);
    // On the promotion rank the full bonus of 50 applies.
    assert_eq!(get_pawn_advancement_bonus(HexCoord::new(0, -4), Color::White), 50);
    // On the starting rank there is no bonus.
    assert_eq!(get_pawn_advancement_bonus(HexCoord::new(0, 4), Color::White), 0);
}

#[test]
fn test_evaluate_starting_position() {
    let game = create_new_game();
    let score = evaluate_position(&game.board);

    // Starting position should be roughly equal (within a small margin)
    assert!(score.abs() < 100, "Starting position score {} should be near 0", score);
}

#[test]
fn test_move_ordering() {
    let game = create_new_game();
    let mut moves = generate_all_legal_moves(&game.board, Color::White);

    assert!(!moves.is_empty());
    order_moves(&mut moves);

    // After ordering, moves should have non-increasing estimated values
    for i in 1..moves.len() {
        assert!(
            estimate_move_value(&moves[i - 1]) >= estimate_move_value(&moves[i]),
            "Moves not properly ordered"
        );
    }
}

#[test]
fn test_find_best_move() {
    let game = create_new_game();
    let mut tt = TranspositionTable::new(1000);

    let result = find_best_move(&game.board, Color::White, 2, &mut tt, false);

    assert!(result.best_move.is_some());
    assert!(result.stats.nodes_searched > 0);
}

#[test]
fn test_transposition_table() {
    let game = create_new_game();
    let mut tt = TranspositionTable::new(100);

    // Store an entry
    tt.store(&game.board, 3, 50, TTEntryType::Exact, None);

    // Probe should find it
    let entry = tt.probe(&game.board);
    assert!(entry.is_some());
    assert_eq!(entry.unwrap().score, 50);
    assert_eq!(entry.unwrap().depth, 3);
    assert_eq!(entry.unwrap().entry_type, TTEntryType::Exact);
}

#[test]
fn test_transposition_table_depth_policy() {
    let game = create_new_game();
    let mut tt = TranspositionTable::new(100);
    tt.store(&game.board, 5, 70, TTEntryType::Lower, None);
    // A shallower store for the same position must not replace the entry.
    tt.store(&game.board, 2, -10, TTEntryType::Upper, None);
    let entry = tt.probe(&game.board).unwrap();
    assert_eq!(entry.score, 70);
    assert_eq!(entry.depth, 5);
    // A deeper store replaces it.
    tt.store(&game.board, 6, 33, TTEntryType::Exact, None);
    let entry = tt.probe(&game.board).unwrap();
    assert_eq!(entry.score, 33);
    assert_eq!(entry.depth, 6);
    tt.clear();
    assert!(tt.probe(&game.board).is_none());
}

#[test]
fn test_quiescence_search() {
    let game = create_new_game();
    let mut stats = SearchStats::new();

    let score = quiescence_search(&game.board, -CHECKMATE_VALUE, CHECKMATE_VALUE, true, &mut stats, 0);

    // Should return a valid score
    assert!(score.abs() < CHECKMATE_VALUE);
    assert!(stats.nodes_searched > 0);
}

#[test]
fn test_ai_difficulty() {
    let game = create_new_game();
    let mut tt = TranspositionTable::new(1000);
    let registry = TablebaseRegistry::new();

    // Easy should be fast
    let easy_result = get_ai_move(&game.board, Color::White, AIDifficulty::Easy, &mut tt, &registry);
    assert!(easy_result.best_move.is_some());

    // Medium should search more nodes
    let medium_result =
        get_ai_move(&game.board, Color::White, AIDifficulty::Medium, &mut tt, &registry);
    assert!(medium_result.best_move.is_some());
    assert!(medium_result.stats.nodes_searched >= easy_result.stats.nodes_searched);
}

#[test]
fn test_create_new_game() {
    let game = create_new_game();
    assert_eq!(game.turn, Color::White);
    assert_eq!(game.move_number, 1);
    assert_eq!(game.status, GameStatus::Ongoing);
    assert!(game.history.is_empty());

    // Check piece count: 8 pieces + 6 pawns per side = 28 total
    assert_eq!(game.board.len(), 28);

    // Check white king position
    let white_king = game.board.get("0,4");
    assert!(white_king.is_some());
    assert_eq!(white_king.unwrap().piece_type, PieceType::King);
    assert_eq!(white_king.unwrap().color, Color::White);

    // Check black king position
    let black_king = game.board.get("0,-4");
    assert!(black_king.is_some());
    assert_eq!(black_king.unwrap().piece_type, PieceType::King);
    assert_eq!(black_king.unwrap().color, Color::Black);
}

#[test]
fn test_starting_position_legal_moves() {
    let game = create_new_game();
    let moves = get_legal_moves(&game);

    // Should have legal moves available
    assert!(!moves.is_empty());

    // All moves should be for white pieces
    for mv in &moves {
        assert_eq!(mv.piece.color, Color::White);
    }
}

#[test]
fn test_make_valid_move() {
    let game = create_new_game();

    // Try moving a pawn forward
    let from = HexCoord::new(0, 2);
    let to = HexCoord::new(0, 1);

    let new_game = make_move(&game, from, to);
    assert!(new_game.is_some());

    let new_game = new_game.unwrap();
    assert_eq!(new_game.turn, Color::Black);
    assert_eq!(new_game.history.len(), 1);

    // Pawn should be at new position
    assert!(new_game.board.get("0,1").is_some());
    assert!(new_game.board.get("0,2").is_none());
}

#[test]
fn test_make_invalid_move() {
    let game = create_new_game();

    // Try moving a pawn to an invalid position
    let from = HexCoord::new(0, 2);
    let to = HexCoord::new(3, 3); // Invalid move

    let new_game = make_move(&game, from, to);
    assert!(new_game.is_none());
}

#[test]
fn test_resign() {
    let game = create_new_game();
    let resigned = resign(&game, Color::White);

    assert_eq!(resigned.status, GameStatus::Resigned { winner: Color::Black });
}

#[test]
fn test_is_player_turn() {
    let game = create_new_game();
    assert!(is_player_turn(&game, Color::White));
    assert!(!is_player_turn(&game, Color::Black));
}

#[test]
fn test_apply_move_piece_count() {
    // A capture removes exactly one piece; a quiet move removes none.
    let game = create_new_game();
    let moves = generate_all_legal_moves(&game.board, Color::White);
    for m in &moves {
        let after = underchex::apply_move(&game.board, m);
        let expected = if m.captured.is_some() {
            game.board.len() - 1
        } else {
            game.board.len()
        };
        assert_eq!(after.len(), expected);
        let landed = after.get(&m.to.to_key()).unwrap();
        if let Some(promo) = m.promotion {
            assert_eq!(landed.piece_type, promo);
        } else {
            assert_eq!(landed.piece_type, m.piece.piece_type);
        }
    }
}

#[test]
fn test_make_move_promotes_pawn() {
    // A pawn reaching its promotion rank promotes; the coordinate-pair
    // entry point promotes to a queen.
    let mut board = underchex::BoardState::new();
    board.insert(HexCoord::new(0, -3).to_key(), Piece::new(PieceType::Pawn, Color::White));
    board.insert(HexCoord::new(0, 4).to_key(), Piece::new(PieceType::King, Color::White));
    board.insert(HexCoord::new(4, 0).to_key(), Piece::new(PieceType::King, Color::Black));
    let game = underchex::GameState {
        board,
        turn: Color::White,
        move_number: 1,
        half_move_clock: 0,
        history: Vec::new(),
        status: GameStatus::Ongoing,
    };
    let next = make_move(&game, HexCoord::new(0, -3), HexCoord::new(0, -4)).unwrap();
    let landed = next.board.get("0,-4").unwrap();
    assert_eq!(landed.piece_type, PieceType::Queen);
    assert_eq!(landed.color, Color::White);
    assert_eq!(next.history[0].promotion, Some(PieceType::Queen));
    // The half-move clock resets on a pawn move.
    assert_eq!(next.half_move_clock, 0);
}
