//! Game state management: the standard starting position, move making with
//! validation, status detection, and game queries.

use vstd::prelude::*;

use crate::board::BoardState;
use crate::board::board_wf;
use crate::board::slot_of;
use crate::hex::HexCoord;
use crate::moves::Move;
use crate::moves::apply_move;
use crate::moves::at_coord;
use crate::moves::generate_all_legal_moves;
use crate::moves::is_in_check;
use crate::moves::spec_all_legal_moves;
use crate::moves::spec_apply;
use crate::moves::spec_in_check;
use crate::moves::spec_validate_legal;
use crate::moves::validate_move;
use crate::piece::Color;
use crate::piece::LanceVariant;
use crate::piece::Piece;
use crate::piece::PieceType;
use crate::piece::spec_opposite_color;

verus! {

/// Status of a game.
#[derive(Debug, Clone, PartialEq, Eq)]
pub enum GameStatus {
    Ongoing,
    Checkmate { winner: Color },
    Stalemate,
    Draw { reason: String },
    Resigned { winner: Color },
}

/// Full game state: the position, whose turn it is, clocks, history, and
/// status.
#[derive(Debug, Clone)]
pub struct GameState {
    pub board: BoardState,
    pub turn: Color,
    pub move_number: u32,
    pub half_move_clock: u32,
    pub history: Vec<Move>,
    pub status: GameStatus,
}

/// A well-formed game state holds a well-formed board.
pub open spec fn game_wf(s: GameState) -> bool {
    board_wf(s.board@)
}

/// A board with no pieces.
pub open spec fn empty_board() -> Seq<Option<Piece>> {
    Seq::new(81, |i: int| None::<Piece>)
}

/// Place a piece on a board view.
pub open spec fn put(b: Seq<Option<Piece>>, q: int, r: int, p: Piece) -> Seq<Option<Piece>> {
    b.update(slot_of(q, r), Some(p))
}

/// The standard starting position: for White, king (0,4), queen (1,3),
/// chariots (-2,4) and (2,3), lance A (-1,4), lance B (1,4), knights (-2,3)
/// and (2,4), six pawns; Black mirrors through the origin with the lance
/// variants mirrored too.
pub open spec fn spec_starting_board() -> Seq<Option<Piece>> {
    let wk = Piece { piece_type: PieceType::King, color: Color::White, variant: None };
    let wq = Piece { piece_type: PieceType::Queen, color: Color::White, variant: None };
    let wc = Piece { piece_type: PieceType::Chariot, color: Color::White, variant: None };
    let wla = Piece {
        piece_type: PieceType::Lance,
        color: Color::White,
        variant: Some(LanceVariant::A),
    };
    let wlb = Piece {
        piece_type: PieceType::Lance,
        color: Color::White,
        variant: Some(LanceVariant::B),
    };
    let wn = Piece { piece_type: PieceType::Knight, color: Color::White, variant: None };
    let wp = Piece { piece_type: PieceType::Pawn, color: Color::White, variant: None };
    let bk = Piece { piece_type: PieceType::King, color: Color::Black, variant: None };
    let bq = Piece { piece_type: PieceType::Queen, color: Color::Black, variant: None };
    let bc = Piece { piece_type: PieceType::Chariot, color: Color::Black, variant: None };
    let bla = Piece {
        piece_type: PieceType::Lance,
        color: Color::Black,
        variant: Some(LanceVariant::A),
    };
    let blb = Piece {
        piece_type: PieceType::Lance,
        color: Color::Black,
        variant: Some(LanceVariant::B),
    };
    let bn = Piece { piece_type: PieceType::Knight, color: Color::Black, variant: None };
    let bp = Piece { piece_type: PieceType::Pawn, color: Color::Black, variant: None };
    put(
        put(
            put(
                put(
                    put(
                        put(
                            put(
                                put(
                                    put(
                                        put(
                                            put(
                                                put(
                                                    put(
                                                        put(
                                                            put(
                                                                put(
                                                                    put(
                                                                        put(
                                                                            put(
                                                                                put(
                                                                                    put(
                                                                                        put(
                                                                                            put(
                                                                                                put(
                                                                                                    put(
                                                                                                        put(
                                                                                                            put(
                                                                                                                put(
                                                                                                                    empty_board(),
                                                                                                                    0,
                                                                                                                    4,
                                                                                                                    wk,
                                                                                                                ),
                                                                                                                1,
                                                                                                                3,
                                                                                                                wq,
                                                                                                            ),
                                                                                                            -2,
                                                                                                            4,
                                                                                                            wc,
                                                                                                        ),
                                                                                                        2,
                                                                                                        3,
                                                                                                        wc,
                                                                                                    ),
                                                                                                    -1,
                                                                                                    4,
                                                                                                    wla,
                                                                                                ),
                                                                                                1,
                                                                                                4,
                                                                                                wlb,
                                                                                            ),
                                                                                            -2,
                                                                                            3,
                                                                                            wn,
                                                                                        ),
                                                                                        2,
                                                                                        4,
                                                                                        wn,
                                                                                    ),
                                                                                    -3,
                                                                                    3,
                                                                                    wp,
                                                                                ),
                                                                                -2,
                                                                                2,
                                                                                wp,
                                                                            ),
                                                                            -1,
                                                                            2,
                                                                            wp,
                                                                        ),
                                                                        0,
                                                                        2,
                                                                        wp,
                                                                    ),
                                                                    1,
                                                                    2,
                                                                    wp,
                                                                ),
                                                                2,
                                                                2,
                                                                wp,
                                                            ),
                                                            0,
                                                            -4,
                                                            bk,
                                                        ),
                                                        -1,
                                                        -3,
                                                        bq,
                                                    ),
                                                    2,
                                                    -4,
                                                    bc,
                                                ),
                                                -2,
                                                -3,
                                                bc,
                                            ),
                                            1,
                                            -4,
                                            bla,
                                        ),
                                        -1,
                                        -4,
                                        blb,
                                    ),
                                    2,
                                    -3,
                                    bn,
                                ),
                                -2,
                                -4,
                                bn,
                            ),
                            3,
                            -3,
                            bp,
                        ),
                        2,
                        -2,
                        bp,
                    ),
                    1,
                    -2,
                    bp,
                ),
                0,
                -2,
                bp,
            ),
            -1,
            -2,
            bp,
        ),
        -2,
        -2,
        bp,
    )
}

/// Create a new game with the standard starting position.
pub fn create_new_game() -> (g: GameState)
    ensures
        game_wf(g),
        g.board@ == spec_starting_board(),
        g.turn == Color::White,
        g.move_number == 1,
        g.half_move_clock == 0,
        g.history@.len() == 0,
        g.status == GameStatus::Ongoing,
{
    let mut board = BoardState::new();
    proof {
        assert(board@ =~= empty_board());
    }
    board.place(HexCoord { q: 0, r: 4 }, Piece::new(PieceType::King, Color::White));
    board.place(HexCoord { q: 1, r: 3 }, Piece::new(PieceType::Queen, Color::White));
    board.place(HexCoord { q: -2, r: 4 }, Piece::new(PieceType::Chariot, Color::White));
    board.place(HexCoord { q: 2, r: 3 }, Piece::new(PieceType::Chariot, Color::White));
    board.place(HexCoord { q: -1, r: 4 }, Piece::lance(Color::White, LanceVariant::A));
    board.place(HexCoord { q: 1, r: 4 }, Piece::lance(Color::White, LanceVariant::B));
    board.place(HexCoord { q: -2, r: 3 }, Piece::new(PieceType::Knight, Color::White));
    board.place(HexCoord { q: 2, r: 4 }, Piece::new(PieceType::Knight, Color::White));
    board.place(HexCoord { q: -3, r: 3 }, Piece::new(PieceType::Pawn, Color::White));
    board.place(HexCoord { q: -2, r: 2 }, Piece::new(PieceType::Pawn, Color::White));
    board.place(HexCoord { q: -1, r: 2 }, Piece::new(PieceType::Pawn, Color::White));
    board.place(HexCoord { q: 0, r: 2 }, Piece::new(PieceType::Pawn, Color::White));
    board.place(HexCoord { q: 1, r: 2 }, Piece::new(PieceType::Pawn, Color::White));
    board.place(HexCoord { q: 2, r: 2 }, Piece::new(PieceType::Pawn, Color::White));
    board.place(HexCoord { q: 0, r: -4 }, Piece::new(PieceType::King, Color::Black));
    board.place(HexCoord { q: -1, r: -3 }, Piece::new(PieceType::Queen, Color::Black));
    board.place(HexCoord { q: 2, r: -4 }, Piece::new(PieceType::Chariot, Color::Black));
    board.place(HexCoord { q: -2, r: -3 }, Piece::new(PieceType::Chariot, Color::Black));
    board.place(HexCoord { q: 1, r: -4 }, Piece::lance(Color::Black, LanceVariant::A));
    board.place(HexCoord { q: -1, r: -4 }, Piece::lance(Color::Black, LanceVariant::B));
    board.place(HexCoord { q: 2, r: -3 }, Piece::new(PieceType::Knight, Color::Black));
    board.place(HexCoord { q: -2, r: -4 }, Piece::new(PieceType::Knight, Color::Black));
    board.place(HexCoord { q: 3, r: -3 }, Piece::new(PieceType::Pawn, Color::Black));
    board.place(HexCoord { q: 2, r: -2 }, Piece::new(PieceType::Pawn, Color::Black));
    board.place(HexCoord { q: 1, r: -2 }, Piece::new(PieceType::Pawn, Color::Black));
    board.place(HexCoord { q: 0, r: -2 }, Piece::new(PieceType::Pawn, Color::Black));
    board.place(HexCoord { q: -1, r: -2 }, Piece::new(PieceType::Pawn, Color::Black));
    board.place(HexCoord { q: -2, r: -2 }, Piece::new(PieceType::Pawn, Color::Black));
    proof {
        assert(board@ =~= spec_starting_board());
    }
    GameState {
        board,
        turn: Color::White,
        move_number: 1,
        half_move_clock: 0,
        history: Vec::new(),
        status: GameStatus::Ongoing,
    }
}

/// Status of a position for the side about to move: checkmate when there is
/// no legal move and the king is attacked, stalemate with no legal move
/// otherwise, else ongoing.
pub open spec fn spec_status(b: Seq<Option<Piece>>, next_turn: Color) -> GameStatus {
    if spec_all_legal_moves(b, next_turn).len() == 0 {
        if spec_in_check(b, next_turn) {
            GameStatus::Checkmate { winner: spec_opposite_color(next_turn) }
        } else {
            GameStatus::Stalemate
        }
    } else {
        GameStatus::Ongoing
    }
}

/// Determine the game status after a move.
fn determine_status(board: &BoardState, next_turn: Color) -> (s: GameStatus)
    requires
        board_wf(board@),
    ensures
        s == spec_status(board@, next_turn),
{
    let legal_moves = generate_all_legal_moves(board, next_turn);
    if legal_moves.len() == 0 {
        if is_in_check(board, next_turn) {
            GameStatus::Checkmate { winner: next_turn.opposite() }
        } else {
            GameStatus::Stalemate
        }
    } else {
        GameStatus::Ongoing
    }
}

/// The move that `make_move` applies for a legal request: the piece on the
/// origin moves to the destination, capturing whatever stands there. A pawn
/// reaching its promotion rank must promote; this coordinate-pair entry
/// point promotes to a queen.
pub open spec fn spec_requested_move(b: Seq<Option<Piece>>, from: HexCoord, to: HexCoord) -> Move {
    let piece = at_coord(b, from)->Some_0;
    Move {
        from,
        to,
        piece,
        captured: at_coord(b, to),
        promotion: if piece.piece_type == PieceType::Pawn && crate::piece::spec_promotion_zone(
            to,
            piece.color,
        ) {
            Some(PieceType::Queen)
        } else {
            None
        },
    }
}

/// Make a move, returning the new game state, or None when the game is over
/// or the requested move is illegal. The new state has the move applied,
/// the turn passed, the clocks advanced, and the status re-examined.
pub fn make_move(state: &GameState, from: HexCoord, to: HexCoord) -> (r: Option<GameState>)
    requires
        game_wf(*state),
    ensures
        match r {
            Some(ns) => {
                let m = spec_requested_move(state.board@, from, to);
                &&& state.status == GameStatus::Ongoing
                &&& spec_validate_legal(state.board@, from, to, state.turn)
                &&& game_wf(ns)
                &&& ns.board@ == spec_apply(state.board@, m)
                &&& ns.turn == spec_opposite_color(state.turn)
                &&& ns.status == spec_status(ns.board@, ns.turn)
                &&& ns.history@ == state.history@.push(m)
                &&& ns.half_move_clock == (if m.piece.piece_type == PieceType::Pawn
                    || m.captured is Some {
                    0int
                } else if state.half_move_clock < u32::MAX {
                    state.half_move_clock + 1
                } else {
                    state.half_move_clock as int
                })
                &&& ns.move_number == (if state.turn == Color::Black && state.move_number
                    < u32::MAX {
                    state.move_number + 1
                } else {
                    state.move_number as int
                })
            },
            None => state.status != GameStatus::Ongoing || !spec_validate_legal(
                state.board@,
                from,
                to,
                state.turn,
            ),
        },
{
    if !matches!(state.status, GameStatus::Ongoing) {
        return None;
    }
    let validation = validate_move(&state.board, from, to, state.turn);
    if !validation.legal {
        return None;
    }
    let piece = match state.board.piece_at(from) {
        Some(p) => p,
        None => {
            proof {
                assert(false);
            }
            return None;
        },
    };
    let captured = state.board.piece_at(to);
    // A pawn landing on its promotion rank promotes; with only the two
    // coordinates given, the promotion target defaults to a queen.
    let promotion: Option<PieceType> = if matches!(piece.piece_type, PieceType::Pawn)
        && crate::piece::is_promotion_zone(to, piece.color) {
        Some(PieceType::Queen)
    } else {
        None
    };
    let mv = Move { piece, from, to, captured, promotion };
    proof {
        crate::board::lemma_slot_bijection();
        assert(crate::hex::cell_in_box(from));
        assert(crate::piece::piece_wf(piece));
    }
    let new_board = apply_move(&state.board, &mv);
    let next_turn = state.turn.opposite();
    let status = determine_status(&new_board, next_turn);
    // The half-move clock resets on pawn moves and captures.
    let half_move_clock: u32 = if matches!(piece.piece_type, PieceType::Pawn)
        || captured.is_some() {
        0
    } else if state.half_move_clock < u32::MAX {
        state.half_move_clock + 1
    } else {
        state.half_move_clock
    };
    // The move number advances when Black completes a move pair.
    let move_number: u32 = if matches!(state.turn, Color::Black) && state.move_number < u32::MAX {
        state.move_number + 1
    } else {
        state.move_number
    };
    let mut history = clone_history(&state.history);
    history.push(mv);
    Some(
        GameState {
            board: new_board,
            turn: next_turn,
            move_number,
            half_move_clock,
            history,
            status,
        },
    )
}

/// An exact copy of a move list.
fn clone_history(history: &Vec<Move>) -> (r: Vec<Move>)
    ensures
        r@ == history@,
{
    let mut r: Vec<Move> = Vec::new();
    let n = history.len();
    let mut i: usize = 0;
    while i < n
        invariant
            i <= n == history@.len(),
            r@ =~= history@.subrange(0, i as int),
        decreases n - i,
    {
        r.push(history[i]);
        i = i + 1;
    }
    proof {
        assert(r@ =~= history@);
    }
    r
}

/// Resign the game: the opponent of the resigning color wins; everything
/// else is unchanged.
pub fn resign(state: &GameState, color: Color) -> (r: GameState)
    requires
        game_wf(*state),
    ensures
        game_wf(r),
        r.board@ == state.board@,
        r.turn == state.turn,
        r.move_number == state.move_number,
        r.half_move_clock == state.half_move_clock,
        r.history@ == state.history@,
        r.status == (GameStatus::Resigned { winner: spec_opposite_color(color) }),
{
    GameState {
        board: state.board.clone_board(),
        turn: state.turn,
        move_number: state.move_number,
        half_move_clock: state.half_move_clock,
        history: clone_history(&state.history),
        status: GameStatus::Resigned { winner: color.opposite() },
    }
}

/// Check if it is a specific player's turn in an ongoing game.
pub fn is_player_turn(state: &GameState, color: Color) -> (r: bool)
    ensures
        r == (state.status == GameStatus::Ongoing && state.turn == color),
{
    matches!(state.status, GameStatus::Ongoing) && matches!(
        (state.turn, color),
        (Color::White, Color::White) | (Color::Black, Color::Black),
    )
}

/// All legal moves for the current player; none when the game is over.
pub fn get_legal_moves(state: &GameState) -> (moves: Vec<Move>)
    requires
        game_wf(*state),
    ensures
        moves@ == (if state.status == GameStatus::Ongoing {
            spec_all_legal_moves(state.board@, state.turn)
        } else {
            Seq::<Move>::empty()
        }),
{
    if !matches!(state.status, GameStatus::Ongoing) {
        let empty: Vec<Move> = Vec::new();
        proof {
            assert(empty@ =~= Seq::<Move>::empty());
        }
        return empty;
    }
    generate_all_legal_moves(&state.board, state.turn)
}

/// Check if the current player is in check.
pub fn is_current_player_in_check(state: &GameState) -> (r: bool)
    requires
        game_wf(*state),
    ensures
        r == spec_in_check(state.board@, state.turn),
{
    is_in_check(&state.board, state.turn)
}

} // verus!
