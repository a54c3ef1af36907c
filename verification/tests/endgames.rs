//! Endgame tablebase verdict tests for generated piece configurations.

use underchex::BoardState;
use underchex::Color;
use underchex::HexCoord;
use underchex::Piece;
use underchex::PieceType;
use underchex::TablebaseConfig;
use underchex::TablebaseRegistry;
use underchex::WDLOutcome;
use underchex::generate_tablebase;
use underchex::probe_tablebase;
use underchex::set_tablebase;

fn config_with(piece: PieceType, name: &str) -> TablebaseConfig {
    TablebaseConfig {
        stronger_side: vec![piece],
        weaker_side: vec![],
        name: name.to_string(),
    }
}

#[test]
fn test_tb_wdl_006_knvk_is_draw() {
    let mut registry = TablebaseRegistry::new();
    set_tablebase(&mut registry, generate_tablebase(&config_with(PieceType::Knight, "KNvK")));

    let mut board = BoardState::new();
    board.insert(HexCoord::new(0, 0).to_key(), Piece::new(PieceType::King, Color::White));
    board.insert(HexCoord::new(2, 0).to_key(), Piece::new(PieceType::Knight, Color::White));
    board.insert(HexCoord::new(0, -3).to_key(), Piece::new(PieceType::King, Color::Black));

    let result = probe_tablebase(&board, Color::White, &registry);
    assert!(result.found);
    assert_eq!(result.entry.as_ref().unwrap().wdl, WDLOutcome::Draw, "Knight alone cannot checkmate");
}

#[test]
fn test_knvk_all_entries_draw() {
    // A lone knight cannot force mate on this board: every entry is a draw.
    let tb = generate_tablebase(&config_with(PieceType::Knight, "KNvK"));
    assert!(tb.size > 0);
    assert_eq!(tb.metadata.win_count, 0);
    assert_eq!(tb.metadata.loss_count, 0);
    assert_eq!(tb.metadata.draw_count, tb.size);
}

#[test]
fn test_tb_wdl_003_kqvk_queen_side_wins() {
    let mut registry = TablebaseRegistry::new();
    set_tablebase(&mut registry, generate_tablebase(&config_with(PieceType::Queen, "KQvK")));

    let mut board = BoardState::new();
    board.insert(HexCoord::new(0, 0).to_key(), Piece::new(PieceType::King, Color::White));
    board.insert(HexCoord::new(2, 0).to_key(), Piece::new(PieceType::Queen, Color::White));
    board.insert(HexCoord::new(0, -4).to_key(), Piece::new(PieceType::King, Color::Black));

    let result = probe_tablebase(&board, Color::White, &registry);
    assert!(result.found);
    assert_eq!(result.entry.as_ref().unwrap().wdl, WDLOutcome::Win);
}

#[test]
fn test_tb_wdl_004_kqvk_lone_king_loses() {
    let mut registry = TablebaseRegistry::new();
    set_tablebase(&mut registry, generate_tablebase(&config_with(PieceType::Queen, "KQvK")));

    let mut board = BoardState::new();
    board.insert(HexCoord::new(0, 0).to_key(), Piece::new(PieceType::King, Color::White));
    board.insert(HexCoord::new(2, 0).to_key(), Piece::new(PieceType::Queen, Color::White));
    board.insert(HexCoord::new(0, -4).to_key(), Piece::new(PieceType::King, Color::Black));

    let result = probe_tablebase(&board, Color::Black, &registry);
    assert!(result.found);
    assert_eq!(result.entry.as_ref().unwrap().wdl, WDLOutcome::Loss);
}

#[test]
fn test_tb_symmetric_001_black_queen_wins() {
    let mut registry = TablebaseRegistry::new();
    set_tablebase(&mut registry, generate_tablebase(&config_with(PieceType::Queen, "KQvK")));

    let mut board = BoardState::new();
    board.insert(HexCoord::new(0, 4).to_key(), Piece::new(PieceType::King, Color::White));
    board.insert(HexCoord::new(2, 0).to_key(), Piece::new(PieceType::Queen, Color::Black));
    board.insert(HexCoord::new(0, 0).to_key(), Piece::new(PieceType::King, Color::Black));

    let result = probe_tablebase(&board, Color::Black, &registry);
    assert!(result.found);
    assert_eq!(result.entry.as_ref().unwrap().wdl, WDLOutcome::Win);
}

#[test]
fn test_tb_symmetric_002_white_king_loses() {
    let mut registry = TablebaseRegistry::new();
    set_tablebase(&mut registry, generate_tablebase(&config_with(PieceType::Queen, "KQvK")));

    let mut board = BoardState::new();
    board.insert(HexCoord::new(0, 4).to_key(), Piece::new(PieceType::King, Color::White));
    board.insert(HexCoord::new(2, 0).to_key(), Piece::new(PieceType::Queen, Color::Black));
    board.insert(HexCoord::new(0, 0).to_key(), Piece::new(PieceType::King, Color::Black));

    let result = probe_tablebase(&board, Color::White, &registry);
    assert!(result.found);
    assert_eq!(result.entry.as_ref().unwrap().wdl, WDLOutcome::Loss);
}

#[test]
fn test_kqvk_winning_move_leads_to_loss() {
    // Every winning verdict carries a best move whose successor is lost for
    // the opponent, one ply nearer the mate.
    let mut registry = TablebaseRegistry::new();
    set_tablebase(&mut registry, generate_tablebase(&config_with(PieceType::Queen, "KQvK")));

    let mut board = BoardState::new();
    board.insert(HexCoord::new(0, 0).to_key(), Piece::new(PieceType::King, Color::White));
    board.insert(HexCoord::new(2, 0).to_key(), Piece::new(PieceType::Queen, Color::White));
    board.insert(HexCoord::new(0, -4).to_key(), Piece::new(PieceType::King, Color::Black));

    let result = probe_tablebase(&board, Color::White, &registry);
    let entry = result.entry.unwrap();
    assert_eq!(entry.wdl, WDLOutcome::Win);
    let best = entry.best_move.expect("winning position must carry a best move");

    // The recorded move is one of the legal moves.
    let legal = underchex::generate_all_legal_moves(&board, Color::White);
    let mv = legal
        .iter()
        .find(|m| {
            m.from.q == best.from_q
                && m.from.r == best.from_r
                && m.to.q == best.to_q
                && m.to.r == best.to_r
        })
        .expect("tablebase best move must be legal");

    // Applying it leaves the opponent lost, one ply closer to mate.
    let after = underchex::apply_move(&board, mv);
    let reply = probe_tablebase(&after, Color::Black, &registry);
    assert!(reply.found);
    let reply_entry = reply.entry.unwrap();
    assert_eq!(reply_entry.wdl, WDLOutcome::Loss);
    assert_eq!(reply_entry.dtm, entry.dtm - 1);
}

#[test]
fn test_kqvk_verdict_spread() {
    // The queen ending holds wins, draws, and losses, and every loss falls
    // on the lone king's side to move (odd position indices).
    let tb = generate_tablebase(&config_with(PieceType::Queen, "KQvK"));
    assert!(tb.metadata.win_count > 0);
    assert!(tb.metadata.loss_count > 0);
    assert!(tb.metadata.draw_count > 0);
    for (i, e) in tb.entries.iter().enumerate() {
        if let Some(entry) = e {
            if entry.wdl == WDLOutcome::Loss {
                assert_eq!(i % 2, 1, "losses only occur with the lone king to move");
            }
        }
    }
}
