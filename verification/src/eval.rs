//! Static evaluation: material, centrality, pawn advancement, mobility, and
//! check penalties, in centipawns from White's perspective.

use vstd::prelude::*;

use crate::board::BoardState;
use crate::board::board_wf;
use crate::board::slot_q;
use crate::board::slot_r;
use crate::hex::HexCoord;
use crate::hex::coord_in_range;
use crate::hex::hex_distance;
use crate::hex::spec_hex_distance;
use crate::hex::spec_ray;
use crate::hex::spec_valid_cell;
use crate::hex::dir_proj;
use crate::moves::all_legal_from;
use crate::moves::generate_all_legal_moves;
use crate::moves::is_in_check;
use crate::moves::king_moves_dirs;
use crate::moves::knight_moves_targets;
use crate::moves::pawn_captures_dirs;
use crate::moves::slide_along;
use crate::moves::slider_moves_dirs;
use crate::moves::spec_all_legal_moves;
use crate::moves::spec_in_check;
use crate::moves::spec_pseudo_moves;
use crate::piece::Color;
use crate::piece::Piece;
use crate::piece::PieceType;
use crate::piece::get_piece_value;
use crate::piece::spec_piece_value;

verus! {

/// Centrality bonus: 5 centipawns per ring closer to the board center.
pub open spec fn spec_centrality_bonus(c: HexCoord) -> int {
    (4 - spec_hex_distance(c, HexCoord { q: 0, r: 0 })) * 5
}

/// Calculate the centrality bonus for a position.
pub fn get_centrality_bonus(coord: HexCoord) -> (v: i32)
    requires
        coord_in_range(coord),
    ensures
        v == spec_centrality_bonus(coord),
{
    let center = HexCoord { q: 0, r: 0 };
    let distance_from_center = hex_distance(coord, center);
    proof {
        assert(spec_hex_distance(coord, HexCoord { q: 0, r: 0 }) <= 3000000);
        assert(spec_hex_distance(coord, HexCoord { q: 0, r: 0 }) >= 0);
    }
    (4 - distance_from_center) * 5
}

/// Pawn advancement bonus: with d the rank distance covered out of 8, the
/// bonus is the floor of (d/8)^2 * 50, so (d*d*50) / 64.
pub open spec fn spec_pawn_advancement_bonus(c: HexCoord, color: Color) -> int {
    let start: int = match color {
        Color::White => 4,
        Color::Black => -4,
    };
    let d = if c.r - start < 0 {
        start - c.r
    } else {
        c.r - start
    };
    (d * d * 50) / 64
}

/// Calculate the pawn advancement bonus.
pub fn get_pawn_advancement_bonus(coord: HexCoord, color: Color) -> (v: i32)
    requires
        crate::hex::cell_in_box(coord),
    ensures
        v == spec_pawn_advancement_bonus(coord, color),
{
    let start_r: i32 = match color {
        Color::White => 4,
        Color::Black => -4,
    };
    let diff: i32 = coord.r - start_r;
    let d: i32 = if diff < 0 {
        -diff
    } else {
        diff
    };
    proof {
        assert(0 <= d * d * 50 <= 3200) by (nonlinear_arith)
            requires
                0 <= d <= 8,
        {}
    }
    (d * d * 50) / 64
}

/// Position bonus of a piece on a cell: centrality, plus advancement for
/// pawns.
pub open spec fn spec_piece_position_bonus(p: Piece, c: HexCoord) -> int {
    spec_centrality_bonus(c) + (if p.piece_type == PieceType::Pawn {
        spec_pawn_advancement_bonus(c, p.color)
    } else {
        0
    })
}

/// Get the position bonus for a piece.
pub fn get_piece_position_bonus(piece: &Piece, coord: HexCoord) -> (v: i32)
    requires
        crate::hex::cell_in_box(coord),
    ensures
        v == spec_piece_position_bonus(*piece, coord),
{
    let mut bonus = get_centrality_bonus(coord);
    proof {
        lemma_position_bonus_bounds(*piece, coord);
    }
    if matches!(piece.piece_type, PieceType::Pawn) {
        bonus = bonus + get_pawn_advancement_bonus(coord, piece.color);
    }
    bonus
}

/// Inside the box the position bonus lies between -20 and 70.
proof fn lemma_position_bonus_bounds(p: Piece, c: HexCoord)
    requires
        crate::hex::cell_in_box(c),
    ensures
        -20 <= spec_centrality_bonus(c) <= 20,
        -20 <= spec_piece_position_bonus(p, c) <= 70,
{
    assert(0 <= spec_hex_distance(c, HexCoord { q: 0, r: 0 }) <= 8);
    let start: int = match p.color {
        Color::White => 4,
        Color::Black => -4,
    };
    let d = if c.r - start < 0 {
        start - c.r
    } else {
        c.r - start
    };
    assert(0 <= d <= 8);
    assert(0 <= d * d * 50 <= 3200) by (nonlinear_arith)
        requires
            0 <= d <= 8,
    {}
}

/// Signed material-and-position term contributed by one grid slot.
pub open spec fn slot_material(b: Seq<Option<Piece>>, i: int) -> int {
    match b[i] {
        Some(p) => {
            let c = HexCoord { q: slot_q(i) as i32, r: slot_r(i) as i32 };
            let total = spec_piece_value(p.piece_type) + spec_piece_position_bonus(p, c);
            match p.color {
                Color::White => total,
                Color::Black => -total,
            }
        },
        None => 0,
    }
}

/// Material-and-position score summed over slots from `i` upward.
pub open spec fn material_from(b: Seq<Option<Piece>>, i: int) -> int
    decreases 81 - i,
{
    if i < 0 || i >= 81 || b.len() != 81 {
        0
    } else {
        slot_material(b, i) + material_from(b, i + 1)
    }
}

/// Material and positional score from White's perspective.
pub open spec fn spec_material(b: Seq<Option<Piece>>) -> int {
    material_from(b, 0)
}

/// Each slot contributes at most 970 in magnitude, so the sum over a slot
/// suffix is bounded.
proof fn lemma_material_bound(b: Seq<Option<Piece>>, i: int)
    requires
        board_wf(b),
    ensures
        0 <= i <= 81 ==> -(81 - i) * 970 <= material_from(b, i) <= (81 - i) * 970,
    decreases 81 - i,
{
    if 0 <= i < 81 {
        lemma_material_bound(b, i + 1);
        match b[i] {
            Some(p) => {
                let c = HexCoord { q: slot_q(i) as i32, r: slot_r(i) as i32 };
                lemma_position_bonus_bounds(p, c);
                assert(0 <= spec_piece_value(p.piece_type) <= 900);
            },
            None => {},
        }
    }
}

/// Evaluate material balance for a board position, from White's perspective
/// in centipawns.
pub fn evaluate_material(board: &BoardState) -> (score: i32)
    requires
        board_wf(board@),
    ensures
        score == spec_material(board@),
{
    let ghost b = board@;
    let mut score: i64 = 0;
    let mut i: usize = 0;
    proof {
        lemma_material_bound(b, 0);
    }
    while i < 81
        invariant
            i <= 81,
            score + material_from(b, i as int) == spec_material(b),
            -970 * (i as int) <= score <= 970 * (i as int),
        decreases 81 - i,
    {
        let q: i32 = (i as i32) / 9 - 4;
        let r: i32 = (i as i32) % 9 - 4;
        let coord = HexCoord { q, r };
        proof {
            assert(q == slot_q(i as int) && r == slot_r(i as int));
            assert(crate::board::slot_of(slot_q(i as int), slot_r(i as int)) == i as int)
                by (nonlinear_arith)
                requires
                    0 <= i < 81,
            {}
            lemma_material_bound(b, i as int);
            lemma_material_bound(b, i + 1);
        }
        if let Some(piece) = board.piece_at(coord) {
            proof {
                lemma_position_bonus_bounds(piece, coord);
            }
            let value = get_piece_value(piece.piece_type);
            let position_bonus = get_piece_position_bonus(&piece, coord);
            let total_value: i64 = (value + position_bonus) as i64;
            match piece.color {
                Color::White => {
                    score = score + total_value;
                },
                Color::Black => {
                    score = score - total_value;
                },
            }
        }
        i = i + 1;
    }
    proof {
        assert(material_from(b, 81) == 0);
        assert(-81 * 970 <= spec_material(b) <= 81 * 970);
    }
    score as i32
}

/// Bound on the number of pseudo-legal moves of one piece.
proof fn lemma_slide_len(b: Seq<Option<Piece>>, p: Piece, from: HexCoord, ray: Seq<HexCoord>)
    ensures
        slide_along(b, p, from, ray).len() <= ray.len(),
    decreases ray.len(),
{
    if ray.len() > 0 {
        lemma_slide_len(b, p, from, ray.drop_first());
    }
}

/// Rays from a valid cell hold at most 8 cells.
proof fn lemma_ray_len(c: HexCoord, d: crate::hex::Direction)
    ensures
        spec_ray(c, d).len() <= (if 4 - dir_proj(c, d) >= 0 {
            4 - dir_proj(c, d)
        } else {
            0int
        }),
    decreases 5 - dir_proj(c, d),
{
    let n = crate::hex::coord_step(c, d);
    if spec_valid_cell(c.q + crate::hex::dir_dq(d), c.r + crate::hex::dir_dr(d)) {
        lemma_ray_len(n, d);
    }
}

proof fn lemma_slider_dirs_len(
    b: Seq<Option<Piece>>,
    p: Piece,
    from: HexCoord,
    dirs: Seq<crate::hex::Direction>,
)
    requires
        crate::hex::cell_in_box(from),
    ensures
        slider_moves_dirs(b, p, from, dirs).len() <= dirs.len() * 8,
    decreases dirs.len(),
{
    if dirs.len() > 0 {
        lemma_slider_dirs_len(b, p, from, dirs.drop_first());
        lemma_ray_len(from, dirs[0]);
        lemma_slide_len(b, p, from, spec_ray(from, dirs[0]));
        assert(dirs.len() * 8 == (dirs.len() - 1) * 8 + 8) by (nonlinear_arith)
            requires
                dirs.len() >= 1,
        {}
    }
}

proof fn lemma_king_dirs_len(
    b: Seq<Option<Piece>>,
    p: Piece,
    from: HexCoord,
    dirs: Seq<crate::hex::Direction>,
)
    ensures
        king_moves_dirs(b, p, from, dirs).len() <= dirs.len(),
    decreases dirs.len(),
{
    if dirs.len() > 0 {
        lemma_king_dirs_len(b, p, from, dirs.drop_first());
    }
}

proof fn lemma_knight_cells_len(
    b: Seq<Option<Piece>>,
    p: Piece,
    from: HexCoord,
    cells: Seq<HexCoord>,
)
    ensures
        knight_moves_targets(b, p, from, cells).len() <= cells.len(),
    decreases cells.len(),
{
    if cells.len() > 0 {
        lemma_knight_cells_len(b, p, from, cells.drop_first());
    }
}

proof fn lemma_pawn_dirs_len(
    b: Seq<Option<Piece>>,
    p: Piece,
    from: HexCoord,
    dirs: Seq<crate::hex::Direction>,
)
    ensures
        pawn_captures_dirs(b, p, from, dirs).len() <= dirs.len() * 4,
    decreases dirs.len(),
{
    if dirs.len() > 0 {
        lemma_pawn_dirs_len(b, p, from, dirs.drop_first());
        assert(dirs.len() * 4 == (dirs.len() - 1) * 4 + 4) by (nonlinear_arith)
            requires
                dirs.len() >= 1,
        {}
    }
}

/// One piece has at most 48 pseudo-legal moves.
pub proof fn lemma_pseudo_moves_len(b: Seq<Option<Piece>>, p: Piece, from: HexCoord)
    requires
        crate::hex::cell_in_box(from),
    ensures
        spec_pseudo_moves(b, p, from).len() <= 48,
{
    match p.piece_type {
        PieceType::Pawn => {
            lemma_pawn_dirs_len(b, p, from, crate::moves::spec_pawn_capture_directions(p.color));
        },
        PieceType::King => {
            lemma_king_dirs_len(b, p, from, crate::hex::spec_all_directions());
        },
        PieceType::Knight => {
            lemma_knight_cells_len(b, p, from, crate::hex::spec_knight_targets(from));
            crate::hex::knight_offsets().map_values(
                |o: (int, int)| HexCoord { q: (from.q + o.0) as i32, r: (from.r + o.1) as i32 },
            ).lemma_filter_len(|c: HexCoord| spec_valid_cell(c.q as int, c.r as int));
        },
        _ => {
            lemma_slider_dirs_len(b, p, from, crate::piece::spec_piece_directions(p));
            assert(crate::piece::spec_piece_directions(p).len() <= 6);
        },
    }
}

/// A side has at most 48 legal moves per slot scanned.
pub proof fn lemma_all_legal_len(b: Seq<Option<Piece>>, color: Color, i: int)
    requires
        board_wf(b),
        0 <= i <= 81,
    ensures
        all_legal_from(b, color, i).len() <= (81 - i) * 48,
    decreases 81 - i,
{
    if i < 81 {
        lemma_all_legal_len(b, color, i + 1);
        match b[i] {
            Some(p) => {
                if p.color == color {
                    let cell = HexCoord { q: slot_q(i) as i32, r: slot_r(i) as i32 };
                    lemma_pseudo_moves_len(b, p, cell);
                    spec_pseudo_moves(b, p, cell).lemma_filter_len(
                        |m: crate::moves::Move| crate::moves::spec_move_safe(b, m),
                    );
                }
            },
            None => {},
        }
        assert((81 - i) * 48 == (81 - (i + 1)) * 48 + 48) by (nonlinear_arith)
            requires
                0 <= i < 81,
        {}
    }
}

/// Evaluate mobility: two centipawns for each legal move of `color`.
pub fn evaluate_mobility(board: &BoardState, color: Color) -> (v: i32)
    requires
        board_wf(board@),
    ensures
        v == 2 * spec_all_legal_moves(board@, color).len(),
{
    let moves = generate_all_legal_moves(board, color);
    proof {
        lemma_all_legal_len(board@, color, 0);
    }
    (moves.len() * 2) as i32
}

/// Full position evaluation from White's perspective: material and position,
/// plus the mobility difference, minus 50 for a side in check.
pub open spec fn spec_evaluate(b: Seq<Option<Piece>>) -> int {
    spec_material(b) + 2 * spec_all_legal_moves(b, Color::White).len() - 2 * spec_all_legal_moves(
        b,
        Color::Black,
    ).len() + (if spec_in_check(b, Color::White) {
        -50int
    } else {
        0int
    }) + (if spec_in_check(b, Color::Black) {
        50int
    } else {
        0int
    })
}

/// Evaluate a position in centipawns from White's perspective.
pub fn evaluate_position(board: &BoardState) -> (score: i32)
    requires
        board_wf(board@),
    ensures
        score == spec_evaluate(board@),
{
    let material = evaluate_material(board);
    let white_mobility = evaluate_mobility(board, Color::White);
    let black_mobility = evaluate_mobility(board, Color::Black);
    proof {
        lemma_material_bound(board@, 0);
        lemma_all_legal_len(board@, Color::White, 0);
        lemma_all_legal_len(board@, Color::Black, 0);
    }
    let mut score: i32 = material + (white_mobility - black_mobility);
    if is_in_check(board, Color::White) {
        score = score - 50;
    }
    if is_in_check(board, Color::Black) {
        score = score + 50;
    }
    score
}

/// The evaluation is bounded well inside the mate scores.
pub proof fn lemma_evaluate_bounds(b: Seq<Option<Piece>>)
    requires
        board_wf(b),
    ensures
        -90000 < spec_evaluate(b) < 90000,
{
    lemma_material_bound(b, 0);
    lemma_all_legal_len(b, Color::White, 0);
    lemma_all_legal_len(b, Color::Black, 0);
}

/// Evaluate a position from the perspective of a specific color.
pub fn evaluate_for_color(board: &BoardState, color: Color) -> (score: i32)
    requires
        board_wf(board@),
    ensures
        score == (match color {
            Color::White => spec_evaluate(board@),
            Color::Black => -spec_evaluate(board@),
        }),
{
    let white_score = evaluate_position(board);
    proof {
        lemma_evaluate_bounds(board@);
    }
    match color {
        Color::White => white_score,
        Color::Black => -white_score,
    }
}

} // verus!
