//! Underchex: a hexagonal chess variant engine on a radius-4 hex board.
//!
//! The crate covers hex geometry, move generation and legality, static
//! evaluation, alpha-beta search with a transposition table, and endgame
//! tablebases built by retrograde analysis.

#![verifier::loop_isolation(false)]

pub mod board;
pub mod clock;
pub mod eval;
pub mod fingerprint;
pub mod game;
pub mod hex;
pub mod keys;
pub mod moves;
pub mod piece;
pub mod search;
pub mod tablebase;
pub mod tt;

pub use piece::Color;
pub use piece::LanceVariant;
pub use piece::Piece;
pub use piece::PieceType;
pub use piece::get_piece_value;
pub use piece::is_promotion_zone;
pub use piece::promotion_targets;

pub use board::BoardState;

pub use hex::BOARD_RADIUS;
pub use hex::Direction;
pub use hex::HexCoord;
pub use hex::TOTAL_CELLS;
pub use hex::add_direction;
pub use hex::get_all_cells;
pub use hex::get_cells_between;
pub use hex::get_direction;
pub use hex::get_knight_targets;
pub use hex::get_neighbor;
pub use hex::get_neighbors;
pub use hex::get_ray;
pub use hex::hex_distance;
pub use hex::is_valid_cell;

pub use moves::Move;
pub use moves::MoveValidation;
pub use moves::apply_move;
pub use moves::find_king;
pub use moves::generate_all_legal_moves;
pub use moves::generate_legal_moves;
pub use moves::generate_pseudo_legal_moves;
pub use moves::get_forward_direction;
pub use moves::get_pawn_capture_directions;
pub use moves::get_piece_at;
pub use moves::has_enemy;
pub use moves::has_friendly;
pub use moves::is_attacked;
pub use moves::is_in_check;
pub use moves::is_occupied;
pub use moves::validate_move;

pub use eval::evaluate_for_color;
pub use eval::evaluate_material;
pub use eval::evaluate_mobility;
pub use eval::evaluate_position;
pub use eval::get_centrality_bonus;
pub use eval::get_pawn_advancement_bonus;
pub use eval::get_piece_position_bonus;

pub use tt::TTEntry;
pub use tt::TTEntryType;
pub use tt::TranspositionTable;

pub use search::AIDifficulty;
pub use search::CHECKMATE_VALUE;
pub use search::STALEMATE_VALUE;
pub use search::SearchResult;
pub use search::SearchStats;
pub use search::alpha_beta;
pub use search::estimate_move_value;
pub use search::find_best_move;
pub use search::find_best_move_iterative;
pub use search::generate_tactical_moves;
pub use search::get_ai_move;
pub use search::is_tactical_move;
pub use search::order_moves;
pub use search::quiescence_search;

pub use game::GameState;
pub use game::GameStatus;
pub use game::create_new_game;
pub use game::get_legal_moves;
pub use game::is_current_player_in_check;
pub use game::is_player_turn;
pub use game::make_move;
pub use game::resign;

pub use tablebase::PieceTablebase;
pub use tablebase::SerializedMove;
pub use tablebase::TablebaseConfig;
pub use tablebase::TablebaseEntry;
pub use tablebase::TablebaseMetadata;
pub use tablebase::TablebaseProbeResult;
pub use tablebase::TablebaseRegistry;
pub use tablebase::TablebaseStat;
pub use tablebase::TablebaseStatistics;
pub use tablebase::WDLOutcome;
pub use tablebase::clear_tablebases;
pub use tablebase::detect_configuration;
pub use tablebase::format_tablebase_statistics;
pub use tablebase::generate_all_positions;
pub use tablebase::generate_tablebase;
pub use tablebase::generate_tablebase_on_demand;
pub use tablebase::get_loaded_tablebases;
pub use tablebase::get_tablebase;
pub use tablebase::get_tablebase_key;
pub use tablebase::get_tablebase_score;
pub use tablebase::get_tablebase_statistics;
pub use tablebase::initialize_tablebases;
pub use tablebase::piece_abbrev;
pub use tablebase::probe_tablebase;
pub use tablebase::set_tablebase;
