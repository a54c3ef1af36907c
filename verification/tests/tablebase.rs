//! Tablebase tests: configuration detection, generation, probing, scores,
//! and the canonical keys.

use underchex::BoardState;
use underchex::Color;
use underchex::HexCoord;
use underchex::Piece;
use underchex::PieceType;
use underchex::TablebaseConfig;
use underchex::TablebaseRegistry;
use underchex::TranspositionTable;
use underchex::WDLOutcome;
use underchex::clear_tablebases;
use underchex::detect_configuration;
use underchex::generate_tablebase;
use underchex::generate_tablebase_on_demand;
use underchex::get_loaded_tablebases;
use underchex::get_tablebase_key;
use underchex::get_tablebase_score;
use underchex::get_tablebase_statistics;
use underchex::probe_tablebase;
use underchex::set_tablebase;

fn create_kvk_position() -> BoardState {
    let mut board = BoardState::new();
    board.insert(HexCoord::new(0, 0).to_key(), Piece::new(PieceType::King, Color::White));
    board.insert(HexCoord::new(3, 0).to_key(), Piece::new(PieceType::King, Color::Black));
    board
}

fn create_kqvk_position() -> BoardState {
    let mut board = BoardState::new();
    board.insert(HexCoord::new(0, 0).to_key(), Piece::new(PieceType::King, Color::White));
    board.insert(HexCoord::new(1, 0).to_key(), Piece::new(PieceType::Queen, Color::White));
    board.insert(HexCoord::new(3, 0).to_key(), Piece::new(PieceType::King, Color::Black));
    board
}

fn kvk_config() -> TablebaseConfig {
    TablebaseConfig { stronger_side: vec![], weaker_side: vec![], name: "KvK".to_string() }
}

#[test]
fn test_detect_kvk_configuration() {
    let board = create_kvk_position();
    let config = detect_configuration(&board);
    assert!(config.is_some());
    assert_eq!(config.unwrap().name, "KvK");
}

#[test]
fn test_detect_kqvk_configuration() {
    let board = create_kqvk_position();
    let config = detect_configuration(&board);
    assert!(config.is_some());
    assert_eq!(config.unwrap().name, "KQvK");
}

#[test]
fn test_tb_config_001_kvk_detection() {
    let mut board = BoardState::new();
    board.insert(HexCoord::new(0, 0).to_key(), Piece::new(PieceType::King, Color::White));
    board.insert(HexCoord::new(0, -3).to_key(), Piece::new(PieceType::King, Color::Black));
    let config = detect_configuration(&board);
    assert!(config.is_some());
    assert_eq!(config.unwrap().name, "KvK");
}

#[test]
fn test_tb_config_002_kqvk_detection() {
    let mut board = BoardState::new();
    board.insert(HexCoord::new(0, 0).to_key(), Piece::new(PieceType::King, Color::White));
    board.insert(HexCoord::new(2, 0).to_key(), Piece::new(PieceType::Queen, Color::White));
    board.insert(HexCoord::new(0, -3).to_key(), Piece::new(PieceType::King, Color::Black));
    let config = detect_configuration(&board);
    assert!(config.is_some());
    assert_eq!(config.unwrap().name, "KQvK");
}

#[test]
fn test_tb_config_003_kqvk_black_queen() {
    let mut board = BoardState::new();
    board.insert(HexCoord::new(0, 0).to_key(), Piece::new(PieceType::King, Color::White));
    board.insert(HexCoord::new(2, 0).to_key(), Piece::new(PieceType::Queen, Color::Black));
    board.insert(HexCoord::new(0, -3).to_key(), Piece::new(PieceType::King, Color::Black));
    let config = detect_configuration(&board);
    assert!(config.is_some());
    // Black having the queen still detects as KQvK (color-agnostic)
    assert_eq!(config.unwrap().name, "KQvK");
}

#[test]
fn test_detect_rejects_multiple_sides_with_pieces() {
    let mut board = BoardState::new();
    board.insert(HexCoord::new(0, 0).to_key(), Piece::new(PieceType::King, Color::White));
    board.insert(HexCoord::new(2, 0).to_key(), Piece::new(PieceType::Queen, Color::White));
    board.insert(HexCoord::new(0, -3).to_key(), Piece::new(PieceType::King, Color::Black));
    board.insert(HexCoord::new(0, 3).to_key(), Piece::new(PieceType::Pawn, Color::Black));
    assert!(detect_configuration(&board).is_none());
}

#[test]
fn test_generate_kvk_tablebase() {
    let config = kvk_config();
    let tablebase = generate_tablebase(&config);

    // KvK should have all draws
    assert!(tablebase.size > 0);
    assert_eq!(tablebase.metadata.win_count, 0);
    assert_eq!(tablebase.metadata.loss_count, 0);
    assert!(tablebase.metadata.draw_count > 0);
}

#[test]
fn test_probe_kvk_position() {
    let mut registry = TablebaseRegistry::new();
    let tablebase = generate_tablebase(&kvk_config());
    set_tablebase(&mut registry, tablebase);

    // Probe a position
    let board = create_kvk_position();
    let result = probe_tablebase(&board, Color::White, &registry);

    assert!(result.found, "Should find KvK position in tablebase");
    assert_eq!(result.entry.as_ref().unwrap().wdl, WDLOutcome::Draw, "KvK should be draw");
}

#[test]
fn test_tb_wdl_001_kvk_is_draw_for_white() {
    let mut registry = TablebaseRegistry::new();
    set_tablebase(&mut registry, generate_tablebase(&kvk_config()));

    let mut board = BoardState::new();
    board.insert(HexCoord::new(0, 0).to_key(), Piece::new(PieceType::King, Color::White));
    board.insert(HexCoord::new(0, -3).to_key(), Piece::new(PieceType::King, Color::Black));

    let result = probe_tablebase(&board, Color::White, &registry);
    assert!(result.found, "Should find KvK position in tablebase");
    assert_eq!(result.entry.as_ref().unwrap().wdl, WDLOutcome::Draw, "KvK should be draw");
}

#[test]
fn test_tb_wdl_002_kvk_is_draw_for_black() {
    let mut registry = TablebaseRegistry::new();
    set_tablebase(&mut registry, generate_tablebase(&kvk_config()));

    let mut board = BoardState::new();
    board.insert(HexCoord::new(0, 0).to_key(), Piece::new(PieceType::King, Color::White));
    board.insert(HexCoord::new(0, -3).to_key(), Piece::new(PieceType::King, Color::Black));

    let result = probe_tablebase(&board, Color::Black, &registry);
    assert!(result.found, "Should find KvK position in tablebase");
    assert_eq!(result.entry.as_ref().unwrap().wdl, WDLOutcome::Draw, "KvK should be draw for black too");
}

#[test]
fn test_tb_move_002_kvk_no_winning_move() {
    let mut registry = TablebaseRegistry::new();
    set_tablebase(&mut registry, generate_tablebase(&kvk_config()));

    let mut board = BoardState::new();
    board.insert(HexCoord::new(0, 0).to_key(), Piece::new(PieceType::King, Color::White));
    board.insert(HexCoord::new(0, -3).to_key(), Piece::new(PieceType::King, Color::Black));

    // For KvK, there's no winning move - it's always a draw
    let result = probe_tablebase(&board, Color::White, &registry);
    assert_eq!(result.entry.as_ref().unwrap().wdl, WDLOutcome::Draw);
    // Draw positions may or may not have a best_move, but the WDL must be draw
}

#[test]
fn test_kvk_probe_reflection_symmetry() {
    // Reflecting a KvK position through the origin with colors swapped
    // keeps the verdict.
    let mut registry = TablebaseRegistry::new();
    set_tablebase(&mut registry, generate_tablebase(&kvk_config()));

    let mut board = BoardState::new();
    board.insert(HexCoord::new(1, 2).to_key(), Piece::new(PieceType::King, Color::White));
    board.insert(HexCoord::new(0, -3).to_key(), Piece::new(PieceType::King, Color::Black));
    let mut reflected = BoardState::new();
    reflected.insert(HexCoord::new(-1, -2).to_key(), Piece::new(PieceType::King, Color::Black));
    reflected.insert(HexCoord::new(0, 3).to_key(), Piece::new(PieceType::King, Color::White));

    let a = probe_tablebase(&board, Color::White, &registry);
    let b = probe_tablebase(&reflected, Color::Black, &registry);
    assert!(a.found && b.found);
    assert_eq!(a.entry.as_ref().unwrap().wdl, b.entry.as_ref().unwrap().wdl);
}

#[test]
fn test_tablebase_score_draw() {
    let mut registry = TablebaseRegistry::new();
    set_tablebase(&mut registry, generate_tablebase(&kvk_config()));

    let board = create_kvk_position();
    let score = get_tablebase_score(&board, Color::White, &registry);

    assert!(score.is_some());
    assert_eq!(score.unwrap(), 0); // Draw should be 0
}

#[test]
fn test_tablebase_statistics() {
    let mut registry = TablebaseRegistry::new();
    clear_tablebases(&mut registry);
    set_tablebase(&mut registry, generate_tablebase(&kvk_config()));

    let stats = get_tablebase_statistics(&registry);
    assert!(stats.total_entries > 0);
    assert_eq!(stats.tablebases.len(), 1);
}

#[test]
fn test_generate_tablebase_on_demand() {
    let mut registry = TablebaseRegistry::new();
    clear_tablebases(&mut registry);

    let tablebase = generate_tablebase_on_demand("KvK", &mut registry);
    assert!(tablebase.is_some());
    assert_eq!(tablebase.unwrap().name, "KvK");

    // Should now be in loaded tablebases
    let loaded = get_loaded_tablebases(&registry);
    assert!(loaded.contains(&"KvK".to_string()));
}

#[test]
fn test_generate_tablebase_on_demand_rejects_bad_names() {
    let mut registry = TablebaseRegistry::new();
    assert!(generate_tablebase_on_demand("", &mut registry).is_none());
    assert!(generate_tablebase_on_demand("QvK", &mut registry).is_none());
    assert!(generate_tablebase_on_demand("KQvQ", &mut registry).is_none());
    assert!(generate_tablebase_on_demand("KXvK", &mut registry).is_none());
    assert!(get_loaded_tablebases(&registry).is_empty());
}

#[test]
fn test_fingerprint_format() {
    // The canonical fingerprint: sorted "q,r:<color><type>" tokens joined
    // with commas, with the side appended for tablebase keys.
    let mut board = BoardState::new();
    board.insert(HexCoord::new(0, 0).to_key(), Piece::new(PieceType::King, Color::White));
    board.insert(HexCoord::new(0, -3).to_key(), Piece::new(PieceType::Queen, Color::Black));
    let hash = TranspositionTable::generate_hash(&board);
    assert_eq!(hash, "0,-3:bq,0,0:wk");
    let key = get_tablebase_key(&board, Color::White);
    assert_eq!(key, "0,-3:bq,0,0:wk-w");
    let key_b = get_tablebase_key(&board, Color::Black);
    assert_eq!(key_b, "0,-3:bq,0,0:wk-b");
}

#[test]
fn test_fingerprint_lance_variants() {
    let mut board = BoardState::new();
    board.insert(
        HexCoord::new(-1, 4).to_key(),
        Piece::lance(Color::White, underchex::LanceVariant::A),
    );
    board.insert(
        HexCoord::new(1, 4).to_key(),
        Piece::lance(Color::White, underchex::LanceVariant::B),
    );
    let hash = TranspositionTable::generate_hash(&board);
    assert_eq!(hash, "-1,4:wlA,1,4:wlB");
}
