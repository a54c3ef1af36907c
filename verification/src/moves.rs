//! Move generation and validation: pseudo-legal and legal move enumeration,
//! attack and check detection, and move application.

use vstd::prelude::*;

use crate::board::BoardState;
use crate::board::board_at;
use crate::board::board_wf;
use crate::board::count_pieces;
use crate::board::lemma_count_pieces_update;
use crate::board::lemma_slot_bijection;
use crate::board::slot_of;
use crate::board::slot_q;
use crate::board::slot_r;
use crate::hex::Direction;
use crate::hex::HexCoord;
use crate::hex::coord_step;
use crate::hex::dir_dq;
use crate::hex::dir_dr;
use crate::hex::get_knight_targets;
use crate::hex::get_neighbor;
use crate::hex::get_ray;
use crate::hex::is_valid_cell;
use crate::hex::spec_all_directions;
use crate::hex::spec_knight_targets;
use crate::hex::spec_neighbor;
use crate::hex::spec_opposite;
use crate::hex::spec_ray;
use crate::hex::cell_in_box;
use crate::hex::spec_valid_cell;
use crate::piece::Color;
use crate::piece::Piece;
use crate::piece::PieceType;
use crate::piece::piece_wf;
use crate::piece::promotion_targets;
use crate::piece::spec_is_slider;
use crate::piece::spec_opposite_color;
use crate::piece::spec_piece_directions;
use crate::piece::spec_promotion_targets;
use crate::piece::spec_promotion_zone;
use crate::piece::is_promotion_zone;
use vstd::string::StringExecFns;

verus! {

/// A move: the piece, its start and destination, the captured piece if any,
/// and the promotion target on promoting pawn moves.
#[derive(Debug, Clone, Copy, PartialEq, Eq)]
pub struct Move {
    pub from: HexCoord,
    pub to: HexCoord,
    pub piece: Piece,
    pub captured: Option<Piece>,
    pub promotion: Option<PieceType>,
}

impl Move {
    pub fn new(piece: Piece, from: HexCoord, to: HexCoord) -> (m: Self)
        ensures
            m == (Move { from, to, piece, captured: None, promotion: None }),
    {
        Self { from, to, piece, captured: None, promotion: None }
    }

    pub fn with_capture(self, captured: Piece) -> (m: Self)
        ensures
            m == (Move { captured: Some(captured), ..self }),
    {
        Self { captured: Some(captured), ..self }
    }

    pub fn with_promotion(self, promotion: PieceType) -> (m: Self)
        ensures
            m == (Move { promotion: Some(promotion), ..self }),
    {
        Self { promotion: Some(promotion), ..self }
    }
}

/// The piece on a cell of the board view.
pub open spec fn at_coord(b: Seq<Option<Piece>>, c: HexCoord) -> Option<Piece> {
    board_at(b, c.q as int, c.r as int)
}

/// Whether a cell holds a piece of the other color.
pub open spec fn spec_has_enemy(b: Seq<Option<Piece>>, c: HexCoord, color: Color) -> bool {
    match at_coord(b, c) {
        Some(p) => p.color != color,
        None => false,
    }
}

/// Whether a cell holds a piece of the given color.
pub open spec fn spec_has_friendly(b: Seq<Option<Piece>>, c: HexCoord, color: Color) -> bool {
    match at_coord(b, c) {
        Some(p) => p.color == color,
        None => false,
    }
}

/// The forward direction of a color's pawns.
pub open spec fn spec_forward_direction(color: Color) -> Direction {
    match color {
        Color::White => Direction::N,
        Color::Black => Direction::S,
    }
}

/// Get the forward direction for a color.
pub fn get_forward_direction(color: Color) -> (d: Direction)
    ensures
        d == spec_forward_direction(color),
{
    match color {
        Color::White => Direction::N,
        Color::Black => Direction::S,
    }
}

/// The three pawn capture directions of a color.
pub open spec fn spec_pawn_capture_directions(color: Color) -> Seq<Direction> {
    match color {
        Color::White => seq![Direction::N, Direction::NE, Direction::NW],
        Color::Black => seq![Direction::S, Direction::SE, Direction::SW],
    }
}

/// Get pawn capture directions for a color.
pub fn get_pawn_capture_directions(color: Color) -> (v: Vec<Direction>)
    ensures
        v@ == spec_pawn_capture_directions(color),
{
    let v = match color {
        Color::White => vec![Direction::N, Direction::NE, Direction::NW],
        Color::Black => vec![Direction::S, Direction::SE, Direction::SW],
    };
    assert(v@ =~= spec_pawn_capture_directions(color));
    v
}

/// Get the piece at a position, or None if empty.
pub fn get_piece_at(board: &BoardState, coord: HexCoord) -> (p: Option<Piece>)
    requires
        board_wf(board@),
    ensures
        p == at_coord(board@, coord),
{
    board.piece_at(coord)
}

/// Check if a cell is occupied.
pub fn is_occupied(board: &BoardState, coord: HexCoord) -> (r: bool)
    requires
        board_wf(board@),
    ensures
        r == (at_coord(board@, coord) is Some),
{
    board.piece_at(coord).is_some()
}

/// Check if a cell holds an enemy piece.
pub fn has_enemy(board: &BoardState, coord: HexCoord, color: Color) -> (r: bool)
    requires
        board_wf(board@),
    ensures
        r == spec_has_enemy(board@, coord, color),
{
    match board.piece_at(coord) {
        Some(p) => match (p.color, color) {
            (Color::White, Color::Black) => true,
            (Color::Black, Color::White) => true,
            _ => false,
        },
        None => false,
    }
}

/// Check if a cell holds a friendly piece.
pub fn has_friendly(board: &BoardState, coord: HexCoord, color: Color) -> (r: bool)
    requires
        board_wf(board@),
    ensures
        r == spec_has_friendly(board@, coord, color),
{
    match board.piece_at(coord) {
        Some(p) => match (p.color, color) {
            (Color::White, Color::White) => true,
            (Color::Black, Color::Black) => true,
            _ => false,
        },
        None => false,
    }
}

/// A plain move together with its four promotion variants when the
/// destination is in the promotion zone, else the single move.
pub open spec fn with_promotions(p: Piece, from: HexCoord, to: HexCoord, cap: Option<Piece>) -> Seq<
    Move,
> {
    let base = Move { from, to, piece: p, captured: cap, promotion: None };
    if spec_promotion_zone(to, p.color) {
        spec_promotion_targets().map_values(|t: PieceType| Move { promotion: Some(t), ..base })
    } else {
        seq![base]
    }
}

/// Pawn moves through one capture direction.
pub open spec fn pawn_capture_in_dir(
    b: Seq<Option<Piece>>,
    p: Piece,
    from: HexCoord,
    d: Direction,
) -> Seq<Move> {
    match spec_neighbor(from, d) {
        Some(t) => if spec_has_enemy(b, t, p.color) {
            with_promotions(p, from, t, at_coord(b, t))
        } else {
            Seq::empty()
        },
        None => Seq::empty(),
    }
}

/// Pawn capture moves over a list of directions.
pub open spec fn pawn_captures_dirs(
    b: Seq<Option<Piece>>,
    p: Piece,
    from: HexCoord,
    dirs: Seq<Direction>,
) -> Seq<Move>
    decreases dirs.len(),
{
    if dirs.len() == 0 {
        Seq::empty()
    } else {
        pawn_capture_in_dir(b, p, from, dirs[0]) + pawn_captures_dirs(
            b,
            p,
            from,
            dirs.drop_first(),
        )
    }
}

/// The pawn's forward (non-capturing) moves.
pub open spec fn pawn_forward_moves(b: Seq<Option<Piece>>, p: Piece, from: HexCoord) -> Seq<Move> {
    match spec_neighbor(from, spec_forward_direction(p.color)) {
        Some(t) => if at_coord(b, t) is None {
            with_promotions(p, from, t, None)
        } else {
            Seq::empty()
        },
        None => Seq::empty(),
    }
}

/// All pseudo-legal pawn moves: the forward step, then captures in the three
/// capture directions.
pub open spec fn spec_pawn_moves(b: Seq<Option<Piece>>, p: Piece, from: HexCoord) -> Seq<Move> {
    pawn_forward_moves(b, p, from) + pawn_captures_dirs(
        b,
        p,
        from,
        spec_pawn_capture_directions(p.color),
    )
}

/// A king step through one direction.
pub open spec fn king_move_in_dir(
    b: Seq<Option<Piece>>,
    p: Piece,
    from: HexCoord,
    d: Direction,
) -> Seq<Move> {
    match spec_neighbor(from, d) {
        Some(t) => if !spec_has_friendly(b, t, p.color) {
            seq![Move { from, to: t, piece: p, captured: at_coord(b, t), promotion: None }]
        } else {
            Seq::empty()
        },
        None => Seq::empty(),
    }
}

/// King steps over a list of directions.
pub open spec fn king_moves_dirs(
    b: Seq<Option<Piece>>,
    p: Piece,
    from: HexCoord,
    dirs: Seq<Direction>,
) -> Seq<Move>
    decreases dirs.len(),
{
    if dirs.len() == 0 {
        Seq::empty()
    } else {
        king_move_in_dir(b, p, from, dirs[0]) + king_moves_dirs(b, p, from, dirs.drop_first())
    }
}

/// All pseudo-legal king moves.
pub open spec fn spec_king_moves(b: Seq<Option<Piece>>, p: Piece, from: HexCoord) -> Seq<Move> {
    king_moves_dirs(b, p, from, spec_all_directions())
}

/// Knight leaps over a list of target cells.
pub open spec fn knight_moves_targets(
    b: Seq<Option<Piece>>,
    p: Piece,
    from: HexCoord,
    targets: Seq<HexCoord>,
) -> Seq<Move>
    decreases targets.len(),
{
    if targets.len() == 0 {
        Seq::empty()
    } else {
        (if !spec_has_friendly(b, targets[0], p.color) {
            seq![
                Move {
                    from,
                    to: targets[0],
                    piece: p,
                    captured: at_coord(b, targets[0]),
                    promotion: None,
                },
            ]
        } else {
            Seq::empty()
        }) + knight_moves_targets(b, p, from, targets.drop_first())
    }
}

/// All pseudo-legal knight moves: leaps ignore intervening pieces.
pub open spec fn spec_knight_moves(b: Seq<Option<Piece>>, p: Piece, from: HexCoord) -> Seq<Move> {
    knight_moves_targets(b, p, from, spec_knight_targets(from))
}

/// Sliding along one ray: stop before a friendly piece, include an enemy as
/// a capture and stop, include empty cells and continue.
pub open spec fn slide_along(
    b: Seq<Option<Piece>>,
    p: Piece,
    from: HexCoord,
    ray: Seq<HexCoord>,
) -> Seq<Move>
    decreases ray.len(),
{
    if ray.len() == 0 {
        Seq::empty()
    } else {
        let t = ray[0];
        match at_coord(b, t) {
            Some(other) => if other.color == p.color {
                Seq::empty()
            } else {
                seq![Move { from, to: t, piece: p, captured: Some(other), promotion: None }]
            },
            None => seq![Move { from, to: t, piece: p, captured: None, promotion: None }]
                + slide_along(b, p, from, ray.drop_first()),
        }
    }
}

/// Slider moves over a list of ray directions.
pub open spec fn slider_moves_dirs(
    b: Seq<Option<Piece>>,
    p: Piece,
    from: HexCoord,
    dirs: Seq<Direction>,
) -> Seq<Move>
    decreases dirs.len(),
{
    if dirs.len() == 0 {
        Seq::empty()
    } else {
        slide_along(b, p, from, spec_ray(from, dirs[0])) + slider_moves_dirs(
            b,
            p,
            from,
            dirs.drop_first(),
        )
    }
}

/// All pseudo-legal slider moves, over the piece's direction set.
pub open spec fn spec_slider_moves(b: Seq<Option<Piece>>, p: Piece, from: HexCoord) -> Seq<Move> {
    slider_moves_dirs(b, p, from, spec_piece_directions(p))
}

/// All pseudo-legal moves of a piece standing on `from`: moves that respect
/// the movement pattern and capture rules but may leave the own king in
/// check.
pub open spec fn spec_pseudo_moves(b: Seq<Option<Piece>>, p: Piece, from: HexCoord) -> Seq<Move> {
    match p.piece_type {
        PieceType::Pawn => spec_pawn_moves(b, p, from),
        PieceType::King => spec_king_moves(b, p, from),
        PieceType::Knight => spec_knight_moves(b, p, from),
        _ => spec_slider_moves(b, p, from),
    }
}

/// Append the promotion expansion of one landing cell to `moves`.
fn push_with_promotions(
    moves: &mut Vec<Move>,
    piece: &Piece,
    from: HexCoord,
    to: HexCoord,
    cap: Option<Piece>,
)
    ensures
        final(moves)@ == old(moves)@ + with_promotions(*piece, from, to, cap),
{
    let base = Move { from, to, piece: *piece, captured: cap, promotion: None };
    let ghost target_seq = with_promotions(*piece, from, to, cap);
    if is_promotion_zone(to, piece.color) {
        let targets = promotion_targets();
        let mut i: usize = 0;
        while i < targets.len()
            invariant
                targets@ == spec_promotion_targets(),
                i <= 4,
                target_seq == spec_promotion_targets().map_values(
                    |t: PieceType| Move { promotion: Some(t), ..base },
                ),
                moves@ == old(moves)@ + target_seq.subrange(0, i as int),
            decreases targets.len() - i,
        {
            let m = Move { promotion: Some(targets[i]), ..base };
            proof {
                assert(target_seq[i as int] == m);
                assert(old(moves)@ + target_seq.subrange(0, i + 1 as int) =~= (old(moves)@
                    + target_seq.subrange(0, i as int)).push(m));
            }
            moves.push(m);
            i = i + 1;
        }
        proof {
            assert(target_seq.subrange(0, 4) =~= target_seq);
        }
    } else {
        moves.push(base);
        proof {
            assert(old(moves)@ + target_seq =~= old(moves)@.push(base));
        }
    }
}

/// Append all pseudo-legal pawn moves to `moves`.
#[verifier::rlimit(60)]
fn generate_pawn_moves(board: &BoardState, piece: &Piece, from: HexCoord, moves: &mut Vec<Move>)
    requires
        board_wf(board@),
        cell_in_box(from),
    ensures
        final(moves)@ == old(moves)@ + spec_pawn_moves(board@, *piece, from),
{
    let forward_dir = get_forward_direction(piece.color);
    // Forward move (non-capture).
    if let Some(forward) = get_neighbor(from, forward_dir) {
        if !is_occupied(board, forward) {
            push_with_promotions(moves, piece, from, forward, None);
        }
    }
    let ghost after_forward = old(moves)@ + pawn_forward_moves(board@, *piece, from);
    proof {
        assert(moves@ =~= after_forward);
    }
    // Captures, including the forward capture direction.
    let capture_directions = get_pawn_capture_directions(piece.color);
    let ghost cdirs = spec_pawn_capture_directions(piece.color);
    proof {
        assert(cdirs.subrange(0, 3) =~= cdirs);
    }
    let mut i: usize = 0;
    while i < capture_directions.len()
        invariant
            board_wf(board@),
            cell_in_box(from),
            capture_directions@ == cdirs,
            i <= cdirs.len(),
            moves@ + pawn_captures_dirs(board@, *piece, from, cdirs.subrange(i as int, 3))
                == after_forward + pawn_captures_dirs(board@, *piece, from, cdirs),
        decreases capture_directions.len() - i,
    {
        let d = capture_directions[i];
        let ghost rest = cdirs.subrange(i as int, 3);
        proof {
            assert(rest[0] == d);
            assert(rest.drop_first() =~= cdirs.subrange(i + 1 as int, 3));
        }
        if let Some(target) = get_neighbor(from, d) {
            if has_enemy(board, target, piece.color) {
                let captured = get_piece_at(board, target);
                push_with_promotions(moves, piece, from, target, captured);
            }
        }
        i = i + 1;
    }
    proof {
        assert(cdirs.subrange(3, 3) =~= Seq::<Direction>::empty());
        assert(moves@ + Seq::<Move>::empty() =~= moves@);
        assert(moves@ =~= old(moves)@ + spec_pawn_moves(board@, *piece, from));
    }
}

/// Append all pseudo-legal king moves to `moves`.
fn generate_king_moves(board: &BoardState, piece: &Piece, from: HexCoord, moves: &mut Vec<Move>)
    requires
        board_wf(board@),
        cell_in_box(from),
    ensures
        final(moves)@ == old(moves)@ + spec_king_moves(board@, *piece, from),
{
    let dirs = Direction::all();
    let ghost alldirs = spec_all_directions();
    proof {
        assert(alldirs.subrange(0, 6) =~= alldirs);
    }
    let mut i: usize = 0;
    while i < dirs.len()
        invariant
            board_wf(board@),
            cell_in_box(from),
            dirs@ == alldirs,
            i <= 6,
            moves@ + king_moves_dirs(board@, *piece, from, alldirs.subrange(i as int, 6))
                == old(moves)@ + king_moves_dirs(board@, *piece, from, alldirs),
        decreases dirs.len() - i,
    {
        let d = dirs[i];
        let ghost rest = alldirs.subrange(i as int, 6);
        proof {
            assert(rest[0] == d);
            assert(rest.drop_first() =~= alldirs.subrange(i + 1 as int, 6));
        }
        if let Some(target) = get_neighbor(from, d) {
            if !has_friendly(board, target, piece.color) {
                let captured = get_piece_at(board, target);
                moves.push(
                    Move { from, to: target, piece: *piece, captured, promotion: None },
                );
            }
        }
        i = i + 1;
    }
    proof {
        assert(alldirs.subrange(6, 6) =~= Seq::<Direction>::empty());
        assert(moves@ + Seq::<Move>::empty() =~= moves@);
    }
}

/// Append all pseudo-legal knight moves to `moves`.
fn generate_knight_moves(board: &BoardState, piece: &Piece, from: HexCoord, moves: &mut Vec<Move>)
    requires
        board_wf(board@),
        cell_in_box(from),
    ensures
        final(moves)@ == old(moves)@ + spec_knight_moves(board@, *piece, from),
{
    let targets = get_knight_targets(from);
    let ghost tgts = spec_knight_targets(from);
    proof {
        assert(tgts.subrange(0, tgts.len() as int) =~= tgts);
    }
    let mut i: usize = 0;
    while i < targets.len()
        invariant
            board_wf(board@),
            targets@ == tgts,
            i <= tgts.len(),
            moves@ + knight_moves_targets(
                board@,
                *piece,
                from,
                tgts.subrange(i as int, tgts.len() as int),
            ) == old(moves)@ + knight_moves_targets(board@, *piece, from, tgts),
        decreases targets.len() - i,
    {
        let target = targets[i];
        let ghost rest = tgts.subrange(i as int, tgts.len() as int);
        proof {
            assert(rest[0] == target);
            assert(rest.drop_first() =~= tgts.subrange(i + 1 as int, tgts.len() as int));
        }
        if !has_friendly(board, target, piece.color) {
            let captured = get_piece_at(board, target);
            moves.push(Move { from, to: target, piece: *piece, captured, promotion: None });
        }
        i = i + 1;
    }
    proof {
        assert(tgts.subrange(tgts.len() as int, tgts.len() as int) =~= Seq::<HexCoord>::empty());
        assert(moves@ + Seq::<Move>::empty() =~= moves@);
    }
}

/// Append all pseudo-legal slider moves to `moves`.
#[verifier::rlimit(60)]
fn generate_slider_moves(board: &BoardState, piece: &Piece, from: HexCoord, moves: &mut Vec<Move>)
    requires
        board_wf(board@),
        cell_in_box(from),
    ensures
        final(moves)@ == old(moves)@ + spec_slider_moves(board@, *piece, from),
{
    let directions = piece.directions();
    let ghost pdirs = spec_piece_directions(*piece);
    proof {
        assert(pdirs.subrange(0, pdirs.len() as int) =~= pdirs);
    }
    let mut i: usize = 0;
    while i < directions.len()
        invariant
            board_wf(board@),
            cell_in_box(from),
            directions@ == pdirs,
            i <= pdirs.len(),
            moves@ + slider_moves_dirs(
                board@,
                *piece,
                from,
                pdirs.subrange(i as int, pdirs.len() as int),
            ) == old(moves)@ + slider_moves_dirs(board@, *piece, from, pdirs),
        decreases directions.len() - i,
    {
        let d = directions[i];
        let ghost rest = pdirs.subrange(i as int, pdirs.len() as int);
        proof {
            assert(rest[0] == d);
            assert(rest.drop_first() =~= pdirs.subrange(i + 1 as int, pdirs.len() as int));
        }
        let ray = get_ray(from, d);
        let ghost rayseq = spec_ray(from, d);
        let ghost target_after = moves@ + slide_along(board@, *piece, from, rayseq);
        proof {
            assert(rayseq.subrange(0, rayseq.len() as int) =~= rayseq);
        }
        let mut j: usize = 0;
        let mut blocked = false;
        while j < ray.len() && !blocked
            invariant
                board_wf(board@),
                ray@ == rayseq,
                j <= rayseq.len(),
                !blocked ==> moves@ + slide_along(
                    board@,
                    *piece,
                    from,
                    rayseq.subrange(j as int, rayseq.len() as int),
                ) == target_after,
                blocked ==> moves@ == target_after,
            decreases ray.len() - j + (if blocked {
                0int
            } else {
                1int
            }),
        {
            let t = ray[j];
            let ghost rrest = rayseq.subrange(j as int, rayseq.len() as int);
            proof {
                assert(rrest[0] == t);
                assert(rrest.drop_first() =~= rayseq.subrange(j + 1 as int, rayseq.len() as int));
            }
            match get_piece_at(board, t) {
                Some(other) => {
                    let friendly = match (other.color, piece.color) {
                        (Color::White, Color::White) => true,
                        (Color::Black, Color::Black) => true,
                        _ => false,
                    };
                    if !friendly {
                        moves.push(
                            Move {
                                from,
                                to: t,
                                piece: *piece,
                                captured: Some(other),
                                promotion: None,
                            },
                        );
                    }
                    blocked = true;
                },
                None => {
                    moves.push(
                        Move { from, to: t, piece: *piece, captured: None, promotion: None },
                    );
                },
            }
            j = j + 1;
        }
        proof {
            if !blocked {
                assert(rayseq.subrange(rayseq.len() as int, rayseq.len() as int) =~= Seq::<
                    HexCoord,
                >::empty());
                assert(moves@ + Seq::<Move>::empty() =~= moves@);
            }
            assert(moves@ =~= target_after);
        }
        i = i + 1;
    }
    proof {
        assert(pdirs.subrange(pdirs.len() as int, pdirs.len() as int) =~= Seq::<
            Direction,
        >::empty());
        assert(moves@ + Seq::<Move>::empty() =~= moves@);
    }
}

/// Generate the pseudo-legal moves of a piece standing on `from`: these
/// respect movement and capture rules but may leave the own king in check.
pub fn generate_pseudo_legal_moves(board: &BoardState, piece: &Piece, from: HexCoord) -> (moves:
    Vec<Move>)
    requires
        board_wf(board@),
        cell_in_box(from),
    ensures
        moves@ == spec_pseudo_moves(board@, *piece, from),
{
    let mut moves: Vec<Move> = Vec::new();
    match piece.piece_type {
        PieceType::Pawn => generate_pawn_moves(board, piece, from, &mut moves),
        PieceType::King => generate_king_moves(board, piece, from, &mut moves),
        PieceType::Knight => generate_knight_moves(board, piece, from, &mut moves),
        _ => generate_slider_moves(board, piece, from, &mut moves),
    }
    proof {
        assert(moves@ =~= spec_pseudo_moves(board@, *piece, from));
    }
    moves
}

// ============================================================================
// Attack and check detection
// ============================================================================

/// A pawn of `by` attacks `t` through capture direction `d` when it stands
/// one step from `t` in the reverse direction.
pub open spec fn pawn_attack_in_dir(
    b: Seq<Option<Piece>>,
    t: HexCoord,
    by: Color,
    d: Direction,
) -> bool {
    match spec_neighbor(t, spec_opposite(d)) {
        Some(a) => match at_coord(b, a) {
            Some(p) => p.piece_type == PieceType::Pawn && p.color == by,
            None => false,
        },
        None => false,
    }
}

pub open spec fn pawn_attack_dirs(
    b: Seq<Option<Piece>>,
    t: HexCoord,
    by: Color,
    dirs: Seq<Direction>,
) -> bool
    decreases dirs.len(),
{
    if dirs.len() == 0 {
        false
    } else {
        pawn_attack_in_dir(b, t, by, dirs[0]) || pawn_attack_dirs(b, t, by, dirs.drop_first())
    }
}

/// A king of `by` attacks `t` when it stands on a neighbor of `t`.
pub open spec fn king_attack_in_dir(
    b: Seq<Option<Piece>>,
    t: HexCoord,
    by: Color,
    d: Direction,
) -> bool {
    match spec_neighbor(t, d) {
        Some(a) => match at_coord(b, a) {
            Some(p) => p.piece_type == PieceType::King && p.color == by,
            None => false,
        },
        None => false,
    }
}

pub open spec fn king_attack_dirs(
    b: Seq<Option<Piece>>,
    t: HexCoord,
    by: Color,
    dirs: Seq<Direction>,
) -> bool
    decreases dirs.len(),
{
    if dirs.len() == 0 {
        false
    } else {
        king_attack_in_dir(b, t, by, dirs[0]) || king_attack_dirs(b, t, by, dirs.drop_first())
    }
}

/// A knight of `by` attacks `t` when it stands on a knight-leap cell of `t`.
pub open spec fn knight_attack_cells(
    b: Seq<Option<Piece>>,
    by: Color,
    cells: Seq<HexCoord>,
) -> bool
    decreases cells.len(),
{
    if cells.len() == 0 {
        false
    } else {
        (match at_coord(b, cells[0]) {
            Some(p) => p.piece_type == PieceType::Knight && p.color == by,
            None => false,
        }) || knight_attack_cells(b, by, cells.drop_first())
    }
}

/// Walking the ray from the target: the first piece hit blocks it, and
/// attacks when it belongs to `by`, slides, and its direction set holds the
/// reverse ray direction.
pub open spec fn ray_attack(
    b: Seq<Option<Piece>>,
    by: Color,
    d: Direction,
    ray: Seq<HexCoord>,
) -> bool
    decreases ray.len(),
{
    if ray.len() == 0 {
        false
    } else {
        match at_coord(b, ray[0]) {
            Some(p) => p.color == by && spec_is_slider(p) && spec_piece_directions(p).contains(
                spec_opposite(d),
            ),
            None => ray_attack(b, by, d, ray.drop_first()),
        }
    }
}

pub open spec fn slider_attack_dirs(
    b: Seq<Option<Piece>>,
    t: HexCoord,
    by: Color,
    dirs: Seq<Direction>,
) -> bool
    decreases dirs.len(),
{
    if dirs.len() == 0 {
        false
    } else {
        ray_attack(b, by, dirs[0], spec_ray(t, dirs[0])) || slider_attack_dirs(
            b,
            t,
            by,
            dirs.drop_first(),
        )
    }
}

/// Whether any piece of `by` attacks the cell `t`, matching move generation:
/// pawns through their reverse capture directions, kings and knights by
/// adjacency and leap, sliders along blocked rays.
pub open spec fn spec_attacked(b: Seq<Option<Piece>>, t: HexCoord, by: Color) -> bool {
    ||| pawn_attack_dirs(b, t, by, spec_pawn_capture_directions(by))
    ||| king_attack_dirs(b, t, by, spec_all_directions())
    ||| knight_attack_cells(b, by, spec_knight_targets(t))
    ||| slider_attack_dirs(b, t, by, spec_all_directions())
}

/// Whether the direction set of `p` holds `d`.
fn piece_directions_contain(p: &Piece, d: Direction) -> (r: bool)
    ensures
        r == spec_piece_directions(*p).contains(d),
{
    let dirs = p.directions();
    let ghost pdirs = spec_piece_directions(*p);
    let mut i: usize = 0;
    while i < dirs.len()
        invariant
            dirs@ == pdirs,
            i <= pdirs.len(),
            forall|j: int| 0 <= j < i ==> pdirs[j] != d,
        decreases dirs.len() - i,
    {
        let candidate = dirs[i];
        let same = match (candidate, d) {
            (Direction::N, Direction::N) => true,
            (Direction::S, Direction::S) => true,
            (Direction::NE, Direction::NE) => true,
            (Direction::SW, Direction::SW) => true,
            (Direction::NW, Direction::NW) => true,
            (Direction::SE, Direction::SE) => true,
            _ => false,
        };
        if same {
            return true;
        }
        i = i + 1;
    }
    false
}

/// Check whether any piece of `by_color` attacks `target`.
#[verifier::rlimit(80)]
pub fn is_attacked(board: &BoardState, target: HexCoord, by_color: Color) -> (r: bool)
    requires
        board_wf(board@),
        cell_in_box(target),
    ensures
        r == spec_attacked(board@, target, by_color),
{
    let ghost b = board@;
    // Pawn attacks: step in the reverse of each capture direction.
    let pawn_capture_directions = get_pawn_capture_directions(by_color);
    let ghost cdirs = spec_pawn_capture_directions(by_color);
    proof {
        assert(cdirs.subrange(0, 3) =~= cdirs);
    }
    let mut i: usize = 0;
    while i < pawn_capture_directions.len()
        invariant
            i <= 3,
            pawn_attack_dirs(b, target, by_color, cdirs) == pawn_attack_dirs(
                b,
                target,
                by_color,
                cdirs.subrange(i as int, 3),
            ),
        decreases pawn_capture_directions.len() - i,
    {
        let d = pawn_capture_directions[i];
        let ghost rest = cdirs.subrange(i as int, 3);
        proof {
            assert(rest[0] == d);
            assert(rest.drop_first() =~= cdirs.subrange(i + 1 as int, 3));
        }
        let reverse_dir = d.opposite();
        if let Some(attacker) = get_neighbor(target, reverse_dir) {
            if let Some(p) = get_piece_at(board, attacker) {
                let hit = match (p.piece_type, p.color, by_color) {
                    (PieceType::Pawn, Color::White, Color::White) => true,
                    (PieceType::Pawn, Color::Black, Color::Black) => true,
                    _ => false,
                };
                if hit {
                    return true;
                }
            }
        }
        i = i + 1;
    }
    proof {
        assert(cdirs.subrange(3, 3) =~= Seq::<Direction>::empty());
    }
    // King attacks: any neighbor holds an enemy king.
    let all_dirs = Direction::all();
    let ghost alldirs = spec_all_directions();
    proof {
        assert(alldirs.subrange(0, 6) =~= alldirs);
    }
    let mut i: usize = 0;
    while i < all_dirs.len()
        invariant
            i <= 6,
            king_attack_dirs(b, target, by_color, alldirs) == king_attack_dirs(
                b,
                target,
                by_color,
                alldirs.subrange(i as int, 6),
            ),
        decreases all_dirs.len() - i,
    {
        let d = all_dirs[i];
        let ghost rest = alldirs.subrange(i as int, 6);
        proof {
            assert(rest[0] == d);
            assert(rest.drop_first() =~= alldirs.subrange(i + 1 as int, 6));
        }
        if let Some(attacker) = get_neighbor(target, d) {
            if let Some(p) = get_piece_at(board, attacker) {
                let hit = match (p.piece_type, p.color, by_color) {
                    (PieceType::King, Color::White, Color::White) => true,
                    (PieceType::King, Color::Black, Color::Black) => true,
                    _ => false,
                };
                if hit {
                    return true;
                }
            }
        }
        i = i + 1;
    }
    proof {
        assert(alldirs.subrange(6, 6) =~= Seq::<Direction>::empty());
    }
    // Knight attacks: any knight-leap cell holds an enemy knight.
    let knight_cells = get_knight_targets(target);
    let ghost kcells = spec_knight_targets(target);
    proof {
        assert(kcells.subrange(0, kcells.len() as int) =~= kcells);
    }
    let mut i: usize = 0;
    while i < knight_cells.len()
        invariant
            i <= kcells.len(),
            knight_attack_cells(b, by_color, kcells) == knight_attack_cells(
                b,
                by_color,
                kcells.subrange(i as int, kcells.len() as int),
            ),
        decreases knight_cells.len() - i,
    {
        let cell = knight_cells[i];
        let ghost rest = kcells.subrange(i as int, kcells.len() as int);
        proof {
            assert(rest[0] == cell);
            assert(rest.drop_first() =~= kcells.subrange(i + 1 as int, kcells.len() as int));
        }
        if let Some(p) = get_piece_at(board, cell) {
            let hit = match (p.piece_type, p.color, by_color) {
                (PieceType::Knight, Color::White, Color::White) => true,
                (PieceType::Knight, Color::Black, Color::Black) => true,
                _ => false,
            };
            if hit {
                return true;
            }
        }
        i = i + 1;
    }
    proof {
        assert(kcells.subrange(kcells.len() as int, kcells.len() as int) =~= Seq::<
            HexCoord,
        >::empty());
    }
    // Slider attacks: walk each ray; the first piece hit blocks it.
    proof {
        assert(alldirs.subrange(0, 6) =~= alldirs);
    }
    let mut i: usize = 0;
    while i < all_dirs.len()
        invariant
            i <= 6,
            slider_attack_dirs(b, target, by_color, alldirs) == slider_attack_dirs(
                b,
                target,
                by_color,
                alldirs.subrange(i as int, 6),
            ),
        decreases all_dirs.len() - i,
    {
        let d = all_dirs[i];
        let ghost rest = alldirs.subrange(i as int, 6);
        proof {
            assert(rest[0] == d);
            assert(rest.drop_first() =~= alldirs.subrange(i + 1 as int, 6));
        }
        let ray = get_ray(target, d);
        let ghost rayseq = spec_ray(target, d);
        proof {
            assert(rayseq.subrange(0, rayseq.len() as int) =~= rayseq);
        }
        let mut j: usize = 0;
        let mut blocked = false;
        while j < ray.len() && !blocked
            invariant
                j <= rayseq.len(),
                !blocked ==> ray_attack(b, by_color, d, rayseq) == ray_attack(
                    b,
                    by_color,
                    d,
                    rayseq.subrange(j as int, rayseq.len() as int),
                ),
                blocked ==> !ray_attack(b, by_color, d, rayseq),
            decreases ray.len() - j + (if blocked {
                0int
            } else {
                1int
            }),
        {
            let cell = ray[j];
            let ghost rrest = rayseq.subrange(j as int, rayseq.len() as int);
            proof {
                assert(rrest[0] == cell);
                assert(rrest.drop_first() =~= rayseq.subrange(j + 1 as int, rayseq.len() as int));
            }
            if let Some(p) = get_piece_at(board, cell) {
                let mine = match (p.color, by_color) {
                    (Color::White, Color::White) => true,
                    (Color::Black, Color::Black) => true,
                    _ => false,
                };
                if mine {
                    let reverse_dir = d.opposite();
                    if p.is_slider() && piece_directions_contain(&p, reverse_dir) {
                        return true;
                    }
                }
                blocked = true;
            }
            j = j + 1;
        }
        proof {
            if !blocked {
                assert(rayseq.subrange(rayseq.len() as int, rayseq.len() as int) =~= Seq::<
                    HexCoord,
                >::empty());
            }
        }
        i = i + 1;
    }
    proof {
        assert(alldirs.subrange(6, 6) =~= Seq::<Direction>::empty());
    }
    false
}

// ============================================================================
// Kings and check
// ============================================================================

/// Whether an optional piece is the king of a color.
pub open spec fn is_king_of(p: Option<Piece>, color: Color) -> bool {
    match p {
        Some(piece) => piece.piece_type == PieceType::King && piece.color == color,
        None => false,
    }
}

/// The first grid slot at or after `i` holding the king of `color`.
pub open spec fn find_king_from(b: Seq<Option<Piece>>, color: Color, i: int) -> Option<HexCoord>
    decreases 81 - i,
{
    if i < 0 || i >= 81 || b.len() != 81 {
        None
    } else if is_king_of(b[i], color) {
        Some(HexCoord { q: slot_q(i) as i32, r: slot_r(i) as i32 })
    } else {
        find_king_from(b, color, i + 1)
    }
}

/// Position of the king of `color`, at the first matching grid slot.
pub open spec fn spec_find_king(b: Seq<Option<Piece>>, color: Color) -> Option<HexCoord> {
    find_king_from(b, color, 0)
}

/// Find the king of a given color.
pub fn find_king(board: &BoardState, color: Color) -> (k: Option<HexCoord>)
    requires
        board_wf(board@),
    ensures
        k == spec_find_king(board@, color),
{
    let ghost b = board@;
    let mut i: usize = 0;
    while i < 81
        invariant
            i <= 81,
            spec_find_king(b, color) == find_king_from(b, color, i as int),
        decreases 81 - i,
    {
        let q: i32 = (i as i32) / 9 - 4;
        let r: i32 = (i as i32) % 9 - 4;
        let coord = HexCoord { q, r };
        proof {
            assert(q == slot_q(i as int) && r == slot_r(i as int));
            assert(-4 <= slot_q(i as int) <= 4 && -4 <= slot_r(i as int) <= 4);
            assert(slot_of(slot_q(i as int), slot_r(i as int)) == i as int) by (nonlinear_arith)
                requires
                    0 <= i < 81,
            {}
        }
        if let Some(p) = board.piece_at(coord) {
            let hit = match (p.piece_type, p.color, color) {
                (PieceType::King, Color::White, Color::White) => true,
                (PieceType::King, Color::Black, Color::Black) => true,
                _ => false,
            };
            if hit {
                return Some(coord);
            }
        }
        i = i + 1;
    }
    None
}

/// The king of `color` exists and its cell is attacked by the other color.
pub open spec fn spec_in_check(b: Seq<Option<Piece>>, color: Color) -> bool {
    match spec_find_king(b, color) {
        Some(k) => spec_attacked(b, k, spec_opposite_color(color)),
        None => false,
    }
}

/// Check whether the king of `color` is in check.
pub fn is_in_check(board: &BoardState, color: Color) -> (r: bool)
    requires
        board_wf(board@),
    ensures
        r == spec_in_check(board@, color),
{
    if let Some(king_pos) = find_king(board, color) {
        proof {
            lemma_find_king_valid(board@, color, 0);
        }
        is_attacked(board, king_pos, color.opposite())
    } else {
        false
    }
}

/// Any king found by the slot scan stands inside the coordinate box.
pub proof fn lemma_find_king_valid(b: Seq<Option<Piece>>, color: Color, i: int)
    requires
        board_wf(b),
    ensures
        match find_king_from(b, color, i) {
            Some(k) => cell_in_box(k),
            None => true,
        },
    decreases 81 - i,
{
    if 0 <= i < 81 {
        if is_king_of(b[i], color) {
            assert(-4 <= slot_q(i) <= 4 && -4 <= slot_r(i) <= 4) by (nonlinear_arith)
                requires
                    0 <= i < 81,
            {}
        } else {
            lemma_find_king_valid(b, color, i + 1);
        }
    }
}

// ============================================================================
// Move application
// ============================================================================

/// The piece that lands on the destination: the promoted piece on promotion
/// moves, else the moving piece itself.
pub open spec fn spec_placed_piece(m: Move) -> Piece {
    match m.promotion {
        Some(pt) => Piece { piece_type: pt, color: m.piece.color, variant: None },
        None => m.piece,
    }
}

/// The board after a move: the origin cell empties and the destination
/// receives the placed piece, overwriting any capture.
pub open spec fn spec_apply(b: Seq<Option<Piece>>, m: Move) -> Seq<Option<Piece>> {
    b.update(slot_of(m.from.q as int, m.from.r as int), None).update(
        slot_of(m.to.q as int, m.to.r as int),
        Some(spec_placed_piece(m)),
    )
}

/// Apply a move to a board, returning the new board. Promotion replaces the
/// pawn with the promoted piece; a piece on the destination is captured.
pub fn apply_move(board: &BoardState, mv: &Move) -> (b: BoardState)
    requires
        board_wf(board@),
        cell_in_box(mv.from),
        cell_in_box(mv.to),
        piece_wf(mv.piece),
    ensures
        board_wf(b@),
        b@ == spec_apply(board@, *mv),
{
    let mut new_board = board.clone_board();
    new_board.clear_cell(mv.from);
    let piece_to_place = match mv.promotion {
        Some(promo_type) => Piece { piece_type: promo_type, color: mv.piece.color, variant: None },
        None => mv.piece,
    };
    new_board.place(mv.to, piece_to_place);
    new_board
}

// ============================================================================
// Legal move generation
// ============================================================================

/// A move is safe when, after applying it, the moving side is not in check.
pub open spec fn spec_move_safe(b: Seq<Option<Piece>>, m: Move) -> bool {
    !spec_in_check(spec_apply(b, m), m.piece.color)
}

/// The legal moves of a piece: the pseudo-legal moves that are safe.
pub open spec fn spec_legal_for(b: Seq<Option<Piece>>, p: Piece, from: HexCoord) -> Seq<Move> {
    spec_pseudo_moves(b, p, from).filter(|m: Move| spec_move_safe(b, m))
}

/// Test one move for safety by applying it to a scratch board, checking for
/// check, and restoring the board.
fn move_is_safe(board: &mut BoardState, m: &Move) -> (r: bool)
    requires
        board_wf(old(board)@),
        cell_in_box(m.from),
        cell_in_box(m.to),
        m.from != m.to,
        piece_wf(m.piece),
    ensures
        final(board)@ == old(board)@,
        r == spec_move_safe(old(board)@, *m),
{
    proof {
        lemma_slot_bijection();
    }
    let saved_from = board.piece_at(m.from);
    let saved_to = board.piece_at(m.to);
    board.clear_cell(m.from);
    let piece_to_place = match m.promotion {
        Some(promo_type) => Piece { piece_type: promo_type, color: m.piece.color, variant: None },
        None => m.piece,
    };
    board.place(m.to, piece_to_place);
    proof {
        assert(board@ =~= spec_apply(old(board)@, *m));
    }
    let check = is_in_check(board, m.piece.color);
    board.set_cell(m.to, saved_to);
    board.set_cell(m.from, saved_from);
    proof {
        assert(board@ =~= old(board)@);
    }
    !check
}

/// Generate all legal moves for a piece standing on `from`.
pub fn generate_legal_moves(board: &BoardState, piece: &Piece, from: HexCoord) -> (moves: Vec<
    Move,
>)
    requires
        board_wf(board@),
        cell_in_box(from),
        piece_wf(*piece),
    ensures
        moves@ == spec_legal_for(board@, *piece, from),
{
    let pseudo_legal = generate_pseudo_legal_moves(board, piece, from);
    let ghost pseudo = spec_pseudo_moves(board@, *piece, from);
    proof {
        lemma_pseudo_moves_shape(board@, *piece, from);
    }
    let mut scratch = board.clone_board();
    let mut moves: Vec<Move> = Vec::new();
    let mut i: usize = 0;
    while i < pseudo_legal.len()
        invariant
            scratch@ == board@,
            i <= pseudo.len(),
            moves@ == pseudo.subrange(0, i as int).filter(|m: Move| spec_move_safe(board@, m)),
        decreases pseudo_legal.len() - i,
    {
        let m = pseudo_legal[i];
        proof {
            assert(pseudo.contains(m)) by {
                assert(pseudo[i as int] == m);
            }
            assert(pseudo.subrange(0, i + 1 as int).drop_last() =~= pseudo.subrange(0, i as int));
            reveal_with_fuel(Seq::filter, 2);
        }
        if move_is_safe(&mut scratch, &m) {
            moves.push(m);
        }
        i = i + 1;
    }
    proof {
        assert(pseudo.subrange(0, pseudo.len() as int) =~= pseudo);
    }
    moves
}

/// Everything a filter keeps was in the sequence.
pub proof fn lemma_filter_subset<A>(s: Seq<A>, pred: spec_fn(A) -> bool)
    ensures
        forall|x: A| #[trigger] s.filter(pred).contains(x) ==> s.contains(x),
    decreases s.len(),
{
    reveal_with_fuel(Seq::filter, 2);
    if s.len() > 0 {
        lemma_filter_subset(s.drop_last(), pred);
        assert forall|x: A| #[trigger] s.filter(pred).contains(x) implies s.contains(x) by {
            if x == s.last() {
                assert(s[s.len() - 1] == x);
            } else {
                assert(s.filter(pred) == if pred(s.last()) {
                    s.drop_last().filter(pred).push(s.last())
                } else {
                    s.drop_last().filter(pred)
                });
                assert(s.drop_last().filter(pred).contains(x));
                assert(s.drop_last().contains(x));
                let j = choose|j: int| 0 <= j < s.drop_last().len() && s.drop_last()[j] == x;
                assert(s[j] == x);
            }
        }
    }
}

/// Every pseudo-legal move records its piece and origin, lands on a valid
/// cell different from its origin, records as captured exactly the board
/// piece on its destination, and never captures a friendly piece.
pub open spec fn move_shape_ok(b: Seq<Option<Piece>>, p: Piece, from: HexCoord, m: Move) -> bool {
    &&& m.piece == p
    &&& m.from == from
    &&& spec_valid_cell(m.to.q as int, m.to.r as int)
    &&& m.to != from
    &&& m.captured == at_coord(b, m.to)
    &&& !spec_has_friendly(b, m.to, p.color)
}

/// Every move emitted by the pseudo-legal generator has the shape above.
pub proof fn lemma_pseudo_moves_shape(b: Seq<Option<Piece>>, p: Piece, from: HexCoord)
    requires
        cell_in_box(from),
    ensures
        forall|i: int|
            0 <= i < spec_pseudo_moves(b, p, from).len() ==> move_shape_ok(
                b,
                p,
                from,
                #[trigger] spec_pseudo_moves(b, p, from)[i],
            ),
{
    match p.piece_type {
        PieceType::Pawn => {
            lemma_pawn_forward_shape(b, p, from);
            lemma_pawn_captures_shape(b, p, from, spec_pawn_capture_directions(p.color));
            let left = pawn_forward_moves(b, p, from);
            let right = pawn_captures_dirs(b, p, from, spec_pawn_capture_directions(p.color));
            assert forall|i: int| 0 <= i < spec_pawn_moves(b, p, from).len() implies move_shape_ok(
                b,
                p,
                from,
                #[trigger] spec_pawn_moves(b, p, from)[i],
            ) by {
                if i < left.len() {
                    assert(spec_pawn_moves(b, p, from)[i] == left[i]);
                } else {
                    assert(spec_pawn_moves(b, p, from)[i] == right[i - left.len()]);
                }
            }
        },
        PieceType::King => {
            lemma_king_moves_shape(b, p, from, spec_all_directions());
        },
        PieceType::Knight => {
            lemma_knight_targets_valid(from);
            lemma_knight_moves_shape(b, p, from, spec_knight_targets(from));
        },
        _ => {
            lemma_slider_moves_shape(b, p, from, spec_piece_directions(p));
        },
    }
}

/// Each move of a promotion expansion lands on `to` with capture `cap`.
proof fn lemma_with_promotions_shape(
    b: Seq<Option<Piece>>,
    p: Piece,
    from: HexCoord,
    to: HexCoord,
    cap: Option<Piece>,
)
    requires
        spec_valid_cell(to.q as int, to.r as int),
        to != from,
        cap == at_coord(b, to),
        !spec_has_friendly(b, to, p.color),
    ensures
        forall|i: int|
            0 <= i < with_promotions(p, from, to, cap).len() ==> move_shape_ok(
                b,
                p,
                from,
                #[trigger] with_promotions(p, from, to, cap)[i],
            ),
{
}

proof fn lemma_pawn_forward_shape(b: Seq<Option<Piece>>, p: Piece, from: HexCoord)
    ensures
        forall|i: int|
            0 <= i < pawn_forward_moves(b, p, from).len() ==> move_shape_ok(
                b,
                p,
                from,
                #[trigger] pawn_forward_moves(b, p, from)[i],
            ),
{
    let fd = spec_forward_direction(p.color);
    match spec_neighbor(from, fd) {
        Some(t) => {
            if at_coord(b, t) is None {
                assert(t != from) by {
                    assert(dir_dq(fd) != 0 || dir_dr(fd) != 0);
                }
                lemma_with_promotions_shape(b, p, from, t, None);
            }
        },
        None => {},
    }
}

proof fn lemma_pawn_captures_shape(
    b: Seq<Option<Piece>>,
    p: Piece,
    from: HexCoord,
    dirs: Seq<Direction>,
)
    ensures
        forall|i: int|
            0 <= i < pawn_captures_dirs(b, p, from, dirs).len() ==> move_shape_ok(
                b,
                p,
                from,
                #[trigger] pawn_captures_dirs(b, p, from, dirs)[i],
            ),
    decreases dirs.len(),
{
    if dirs.len() > 0 {
        let d = dirs[0];
        match spec_neighbor(from, d) {
            Some(t) => {
                if spec_has_enemy(b, t, p.color) {
                    assert(t != from) by {
                        assert(dir_dq(d) != 0 || dir_dr(d) != 0);
                    }
                    lemma_with_promotions_shape(b, p, from, t, at_coord(b, t));
                }
            },
            None => {},
        }
        lemma_pawn_captures_shape(b, p, from, dirs.drop_first());
        let whole = pawn_captures_dirs(b, p, from, dirs);
        let left = pawn_capture_in_dir(b, p, from, dirs[0]);
        let right = pawn_captures_dirs(b, p, from, dirs.drop_first());
        assert forall|i: int| 0 <= i < whole.len() implies move_shape_ok(
            b,
            p,
            from,
            #[trigger] whole[i],
        ) by {
            if i < left.len() {
                assert(whole[i] == left[i]);
            } else {
                assert(whole[i] == right[i - left.len()]);
            }
        }
    }
}

proof fn lemma_king_moves_shape(
    b: Seq<Option<Piece>>,
    p: Piece,
    from: HexCoord,
    dirs: Seq<Direction>,
)
    ensures
        forall|i: int|
            0 <= i < king_moves_dirs(b, p, from, dirs).len() ==> move_shape_ok(
                b,
                p,
                from,
                #[trigger] king_moves_dirs(b, p, from, dirs)[i],
            ),
    decreases dirs.len(),
{
    if dirs.len() > 0 {
        let d = dirs[0];
        match spec_neighbor(from, d) {
            Some(t) => {
                assert(t != from) by {
                    assert(dir_dq(d) != 0 || dir_dr(d) != 0);
                }
            },
            None => {},
        }
        lemma_king_moves_shape(b, p, from, dirs.drop_first());
        let whole = king_moves_dirs(b, p, from, dirs);
        let left = king_move_in_dir(b, p, from, dirs[0]);
        let right = king_moves_dirs(b, p, from, dirs.drop_first());
        assert forall|i: int| 0 <= i < whole.len() implies move_shape_ok(
            b,
            p,
            from,
            #[trigger] whole[i],
        ) by {
            if i < left.len() {
                assert(whole[i] == left[i]);
            } else {
                assert(whole[i] == right[i - left.len()]);
            }
        }
    }
}

/// Knight leap targets are valid cells distinct from the origin.
proof fn lemma_knight_targets_valid(from: HexCoord)
    requires
        cell_in_box(from),
    ensures
        forall|i: int|
            0 <= i < spec_knight_targets(from).len() ==> spec_valid_cell(
                (#[trigger] spec_knight_targets(from)[i]).q as int,
                spec_knight_targets(from)[i].r as int,
            ) && spec_knight_targets(from)[i] != from,
{
    let pred = |c: HexCoord| spec_valid_cell(c.q as int, c.r as int);
    let mapped = crate::hex::knight_offsets().map_values(
        |o: (int, int)| HexCoord { q: (from.q + o.0) as i32, r: (from.r + o.1) as i32 },
    );
    let filtered = mapped.filter(pred);
    mapped.filter_lemma(pred);
    lemma_filter_subset(mapped, pred);
    assert(forall|j: int|
        0 <= j < mapped.len() ==> #[trigger] mapped[j] != from);
    assert forall|i: int| 0 <= i < filtered.len() implies spec_valid_cell(
        (#[trigger] filtered[i]).q as int,
        filtered[i].r as int,
    ) && filtered[i] != from by {
        let c = filtered[i];
        assert(pred(c));
        assert(filtered.contains(c)) by {
            assert(filtered[i] == c);
        }
        assert(mapped.contains(c));
        let j = choose|j: int| 0 <= j < mapped.len() && mapped[j] == c;
    }
}

proof fn lemma_knight_moves_shape(
    b: Seq<Option<Piece>>,
    p: Piece,
    from: HexCoord,
    cells: Seq<HexCoord>,
)
    requires
        forall|i: int|
            0 <= i < cells.len() ==> spec_valid_cell(
                (#[trigger] cells[i]).q as int,
                cells[i].r as int,
            ) && cells[i] != from,
    ensures
        forall|i: int|
            0 <= i < knight_moves_targets(b, p, from, cells).len() ==> move_shape_ok(
                b,
                p,
                from,
                #[trigger] knight_moves_targets(b, p, from, cells)[i],
            ),
    decreases cells.len(),
{
    if cells.len() > 0 {
        lemma_knight_moves_shape(b, p, from, cells.drop_first());
        let whole = knight_moves_targets(b, p, from, cells);
        let left: Seq<Move> = if !spec_has_friendly(b, cells[0], p.color) {
            seq![
                Move {
                    from,
                    to: cells[0],
                    piece: p,
                    captured: at_coord(b, cells[0]),
                    promotion: None,
                },
            ]
        } else {
            Seq::empty()
        };
        let right = knight_moves_targets(b, p, from, cells.drop_first());
        assert forall|i: int| 0 <= i < whole.len() implies move_shape_ok(
            b,
            p,
            from,
            #[trigger] whole[i],
        ) by {
            if i < left.len() {
                assert(whole[i] == left[i]);
            } else {
                assert(whole[i] == right[i - left.len()]);
            }
        }
    }
}

proof fn lemma_slide_along_shape(
    b: Seq<Option<Piece>>,
    p: Piece,
    from: HexCoord,
    d: Direction,
    k: int,
)
    requires
        cell_in_box(from),
        0 <= k <= spec_ray(from, d).len(),
    ensures
        forall|i: int|
            0 <= i < slide_along(
                b,
                p,
                from,
                spec_ray(from, d).subrange(k, spec_ray(from, d).len() as int),
            ).len() ==> move_shape_ok(
                b,
                p,
                from,
                #[trigger] slide_along(
                    b,
                    p,
                    from,
                    spec_ray(from, d).subrange(k, spec_ray(from, d).len() as int),
                )[i],
            ),
    decreases spec_ray(from, d).len() - k,
{
    let ray = spec_ray(from, d);
    let tail = ray.subrange(k, ray.len() as int);
    if tail.len() > 0 {
        let t = tail[0];
        assert(t == ray[k]);
        lemma_ray_cell_ok(from, d, k);
        lemma_slide_along_shape(b, p, from, d, k + 1);
        assert(tail.drop_first() =~= ray.subrange(k + 1, ray.len() as int));
        let whole = slide_along(b, p, from, tail);
        let rest = slide_along(b, p, from, tail.drop_first());
        assert forall|i: int| 0 <= i < whole.len() implies move_shape_ok(
            b,
            p,
            from,
            #[trigger] whole[i],
        ) by {
            match at_coord(b, t) {
                Some(other) => {
                    assert(whole[i] == whole[0]);
                },
                None => {
                    if i == 0 {
                        assert(whole[0] == (Move {
                            from,
                            to: t,
                            piece: p,
                            captured: None,
                            promotion: None,
                        }));
                    } else {
                        assert(whole[i] == rest[i - 1]);
                    }
                },
            }
        }
    }
}

/// A ray cell is valid and differs from the ray's origin.
proof fn lemma_ray_cell_ok(from: HexCoord, d: Direction, k: int)
    requires
        0 <= k < spec_ray(from, d).len(),
    ensures
        spec_valid_cell(
            (spec_ray(from, d)[k]).q as int,
            (spec_ray(from, d)[k]).r as int,
        ),
        spec_ray(from, d)[k] != from,
{
    crate::hex::lemma_ray_on_line(from, d);
    let cell = spec_ray(from, d)[k];
    assert(cell.q == from.q + (k + 1) * dir_dq(d));
    assert(cell.r == from.r + (k + 1) * dir_dr(d));
    if dir_dq(d) != 0 {
        assert((k + 1) * dir_dq(d) != 0) by (nonlinear_arith)
            requires
                k + 1 >= 1,
                dir_dq(d) == 1 || dir_dq(d) == -1,
        {}
    } else {
        assert(dir_dr(d) != 0);
        assert((k + 1) * dir_dr(d) != 0) by (nonlinear_arith)
            requires
                k + 1 >= 1,
                dir_dr(d) == 1 || dir_dr(d) == -1,
        {}
    }
}

proof fn lemma_slider_moves_shape(
    b: Seq<Option<Piece>>,
    p: Piece,
    from: HexCoord,
    dirs: Seq<Direction>,
)
    requires
        cell_in_box(from),
    ensures
        forall|i: int|
            0 <= i < slider_moves_dirs(b, p, from, dirs).len() ==> move_shape_ok(
                b,
                p,
                from,
                #[trigger] slider_moves_dirs(b, p, from, dirs)[i],
            ),
    decreases dirs.len(),
{
    if dirs.len() > 0 {
        let d = dirs[0];
        let ray = spec_ray(from, d);
        lemma_slide_along_shape(b, p, from, d, 0);
        assert(ray.subrange(0, ray.len() as int) =~= ray);
        lemma_slider_moves_shape(b, p, from, dirs.drop_first());
        let whole = slider_moves_dirs(b, p, from, dirs);
        let left = slide_along(b, p, from, ray);
        let right = slider_moves_dirs(b, p, from, dirs.drop_first());
        assert forall|i: int| 0 <= i < whole.len() implies move_shape_ok(
            b,
            p,
            from,
            #[trigger] whole[i],
        ) by {
            if i < left.len() {
                assert(whole[i] == left[i]);
            } else {
                assert(whole[i] == right[i - left.len()]);
            }
        }
    }
}

// ============================================================================
// All legal moves of a side
// ============================================================================

/// Legal moves of every piece of `color`, scanning grid slots in ascending
/// order from slot `i`.
pub open spec fn all_legal_from(b: Seq<Option<Piece>>, color: Color, i: int) -> Seq<Move>
    decreases 81 - i,
{
    if i < 0 || i >= 81 || b.len() != 81 {
        Seq::empty()
    } else {
        (match b[i] {
            Some(p) => if p.color == color {
                spec_legal_for(b, p, HexCoord { q: slot_q(i) as i32, r: slot_r(i) as i32 })
            } else {
                Seq::empty()
            },
            None => Seq::empty(),
        }) + all_legal_from(b, color, i + 1)
    }
}

/// All legal moves of a side, in grid-slot order of the moving piece.
pub open spec fn spec_all_legal_moves(b: Seq<Option<Piece>>, color: Color) -> Seq<Move> {
    all_legal_from(b, color, 0)
}

/// Generate all legal moves for a player.
pub fn generate_all_legal_moves(board: &BoardState, color: Color) -> (moves: Vec<Move>)
    requires
        board_wf(board@),
    ensures
        moves@ == spec_all_legal_moves(board@, color),
{
    let ghost b = board@;
    let mut moves: Vec<Move> = Vec::new();
    let mut i: usize = 0;
    while i < 81
        invariant
            i <= 81,
            moves@ + all_legal_from(b, color, i as int) == spec_all_legal_moves(b, color),
        decreases 81 - i,
    {
        let q: i32 = (i as i32) / 9 - 4;
        let r: i32 = (i as i32) % 9 - 4;
        let coord = HexCoord { q, r };
        proof {
            assert(q == slot_q(i as int) && r == slot_r(i as int));
            assert(slot_of(slot_q(i as int), slot_r(i as int)) == i as int) by (nonlinear_arith)
                requires
                    0 <= i < 81,
            {}
        }
        if let Some(piece) = board.piece_at(coord) {
            let mine = match (piece.color, color) {
                (Color::White, Color::White) => true,
                (Color::Black, Color::Black) => true,
                _ => false,
            };
            if mine {
                let mut piece_moves = generate_legal_moves(board, &piece, coord);
                let ghost pm = piece_moves@;
                let ghost before = moves@;
                let mut j: usize = 0;
                while j < piece_moves.len()
                    invariant
                        j <= pm.len(),
                        piece_moves@ == pm,
                        moves@ == before + pm.subrange(0, j as int),
                    decreases piece_moves.len() - j,
                {
                    proof {
                        assert(before + pm.subrange(0, j + 1 as int) =~= (before + pm.subrange(
                            0,
                            j as int,
                        )).push(pm[j as int]));
                    }
                    let m = piece_moves[j];
                    moves.push(m);
                    j = j + 1;
                }
                proof {
                    assert(pm.subrange(0, pm.len() as int) =~= pm);
                    assert(moves@ =~= before + pm);
                }
            }
        }
        proof {
            assert(moves@ + all_legal_from(b, color, i + 1 as int) =~= spec_all_legal_moves(
                b,
                color,
            ));
        }
        i = i + 1;
    }
    proof {
        assert(moves@ + Seq::<Move>::empty() =~= moves@);
    }
    moves
}

// ============================================================================
// Move validation
// ============================================================================

/// Outcome of validating a single requested move.
#[derive(Debug, Clone, PartialEq, Eq)]
pub struct MoveValidation {
    pub legal: bool,
    pub reason: Option<String>,
    pub capture: bool,
}

/// Whether some legal move of the piece on `from` lands on `to`.
pub open spec fn spec_some_legal_to(
    b: Seq<Option<Piece>>,
    p: Piece,
    from: HexCoord,
    to: HexCoord,
) -> bool {
    exists|i: int| 0 <= i < spec_legal_for(b, p, from).len() && (#[trigger] spec_legal_for(
        b,
        p,
        from,
    )[i]).to == to
}

/// Whether some pseudo-legal move of the piece on `from` lands on `to`.
pub open spec fn spec_some_pseudo_to(
    b: Seq<Option<Piece>>,
    p: Piece,
    from: HexCoord,
    to: HexCoord,
) -> bool {
    exists|i: int| 0 <= i < spec_pseudo_moves(b, p, from).len() && (#[trigger] spec_pseudo_moves(
        b,
        p,
        from,
    )[i]).to == to
}

/// The requested move is legal: a piece of the side to move stands on
/// `from`, `to` is on the board, and some legal move of that piece lands on
/// `to`.
pub open spec fn spec_validate_legal(
    b: Seq<Option<Piece>>,
    from: HexCoord,
    to: HexCoord,
    turn: Color,
) -> bool {
    match at_coord(b, from) {
        Some(p) => p.color == turn && spec_valid_cell(to.q as int, to.r as int)
            && spec_some_legal_to(b, p, from, to),
        None => false,
    }
}

/// The rejection reason of an illegal request, None for a legal one.
pub open spec fn spec_validate_reason(
    b: Seq<Option<Piece>>,
    from: HexCoord,
    to: HexCoord,
    turn: Color,
) -> Option<Seq<char>> {
    match at_coord(b, from) {
        None => Some("noPieceAtSource"@),
        Some(p) => if p.color != turn {
            Some("notYourPiece"@)
        } else if !spec_valid_cell(to.q as int, to.r as int) {
            Some("invalidDestination"@)
        } else if spec_some_legal_to(b, p, from, to) {
            None
        } else if spec_some_pseudo_to(b, p, from, to) {
            Some("movesIntoCheck"@)
        } else {
            Some("illegalMove"@)
        },
    }
}

/// Validate a requested move from `from` to `to` for the side `turn`,
/// reporting legality, whether it captures, and a stable reason token when
/// it is rejected.
#[verifier::rlimit(60)]
pub fn validate_move(board: &BoardState, from: HexCoord, to: HexCoord, turn: Color) -> (v:
    MoveValidation)
    requires
        board_wf(board@),
    ensures
        v.legal == spec_validate_legal(board@, from, to, turn),
        v.capture == (v.legal && at_coord(board@, to) is Some),
        match (v.reason, spec_validate_reason(board@, from, to, turn)) {
            (Some(s), Some(t)) => s@ == t,
            (None, None) => true,
            _ => false,
        },
{
    let ghost b = board@;
    let piece = match get_piece_at(board, from) {
        Some(p) => p,
        None => {
            return MoveValidation {
                legal: false,
                reason: Some(String::from_str("noPieceAtSource")),
                capture: false,
            };
        },
    };
    let right_color = match (piece.color, turn) {
        (Color::White, Color::White) => true,
        (Color::Black, Color::Black) => true,
        _ => false,
    };
    if !right_color {
        return MoveValidation {
            legal: false,
            reason: Some(String::from_str("notYourPiece")),
            capture: false,
        };
    }
    if !is_valid_cell(to) {
        return MoveValidation {
            legal: false,
            reason: Some(String::from_str("invalidDestination")),
            capture: false,
        };
    }
    proof {
        lemma_slot_bijection();
        assert(cell_in_box(from));
    }
    let legal_moves = generate_legal_moves(board, &piece, from);
    let ghost legal = spec_legal_for(b, piece, from);
    let mut i: usize = 0;
    while i < legal_moves.len()
        invariant
            i <= legal.len(),
            legal_moves@ == legal,
            forall|j: int| 0 <= j < i ==> (#[trigger] legal[j]).to != to,
        decreases legal_moves.len() - i,
    {
        let m = legal_moves[i];
        if m.to.q == to.q && m.to.r == to.r {
            proof {
                assert(m.to == to);
                assert(spec_some_legal_to(b, piece, from, to)) by {
                    assert(legal[i as int].to == to);
                }
                lemma_pseudo_moves_shape(b, piece, from);
                lemma_filter_subset(
                    spec_pseudo_moves(b, piece, from),
                    |mm: Move| spec_move_safe(b, mm),
                );
                assert(spec_pseudo_moves(b, piece, from).contains(m)) by {
                    assert(legal.contains(m)) by {
                        assert(legal[i as int] == m);
                    }
                }
                let k = choose|k: int|
                    0 <= k < spec_pseudo_moves(b, piece, from).len() && spec_pseudo_moves(
                        b,
                        piece,
                        from,
                    )[k] == m;
                assert(move_shape_ok(b, piece, from, m));
            }
            return MoveValidation { legal: true, reason: None, capture: m.captured.is_some() };
        }
        i = i + 1;
    }
    proof {
        assert(!spec_some_legal_to(b, piece, from, to));
    }
    let pseudo_legal = generate_pseudo_legal_moves(board, &piece, from);
    let ghost pseudo = spec_pseudo_moves(b, piece, from);
    let mut i: usize = 0;
    while i < pseudo_legal.len()
        invariant
            i <= pseudo.len(),
            pseudo_legal@ == pseudo,
            forall|j: int| 0 <= j < i ==> (#[trigger] pseudo[j]).to != to,
        decreases pseudo_legal.len() - i,
    {
        let m = pseudo_legal[i];
        if m.to.q == to.q && m.to.r == to.r {
            proof {
                assert(spec_some_pseudo_to(b, piece, from, to)) by {
                    assert(pseudo[i as int].to == to);
                }
            }
            return MoveValidation {
                legal: false,
                reason: Some(String::from_str("movesIntoCheck")),
                capture: false,
            };
        }
        i = i + 1;
    }
    proof {
        assert(!spec_some_pseudo_to(b, piece, from, to));
    }
    MoveValidation {
        legal: false,
        reason: Some(String::from_str("illegalMove")),
        capture: false,
    }
}

// ============================================================================
// Laws of move generation
// ============================================================================

/// The legal moves are exactly the safe pseudo-legal moves: every legal move
/// is pseudo-legal, and a legal move never leaves the mover in check.
pub proof fn lemma_legal_moves_sound(b: Seq<Option<Piece>>, p: Piece, from: HexCoord)
    ensures
        forall|m: Move|
            #[trigger] spec_legal_for(b, p, from).contains(m) ==> spec_pseudo_moves(
                b,
                p,
                from,
            ).contains(m),
        forall|m: Move|
            #[trigger] spec_legal_for(b, p, from).contains(m) ==> !spec_in_check(
                spec_apply(b, m),
                m.piece.color,
            ),
{
    let pred = |m: Move| spec_move_safe(b, m);
    let pseudo = spec_pseudo_moves(b, p, from);
    lemma_filter_subset(pseudo, pred);
    pseudo.filter_lemma(pred);
    assert forall|m: Move| #[trigger] spec_legal_for(b, p, from).contains(m) implies
        !spec_in_check(spec_apply(b, m), m.piece.color) by {
        let i = choose|i: int|
            0 <= i < spec_legal_for(b, p, from).len() && spec_legal_for(b, p, from)[i] == m;
        assert(pred(spec_legal_for(b, p, from)[i]));
    }
}

/// Applying a move removes exactly the captured piece from the count: the
/// destination holds the moved (or promoted) piece, and the piece count
/// drops by one exactly on captures.
pub proof fn lemma_apply_move_piece_count(b: Seq<Option<Piece>>, m: Move)
    requires
        b.len() == 81,
        cell_in_box(m.from),
        cell_in_box(m.to),
        m.from != m.to,
        at_coord(b, m.from) is Some,
        m.captured == at_coord(b, m.to),
    ensures
        count_pieces(spec_apply(b, m)) == count_pieces(b) - (if m.captured is Some {
            1int
        } else {
            0int
        }),
        at_coord(spec_apply(b, m), m.to) == Some(spec_placed_piece(m)),
        at_coord(spec_apply(b, m), m.from) is None,
{
    lemma_slot_bijection();
    let fs = slot_of(m.from.q as int, m.from.r as int);
    let ts = slot_of(m.to.q as int, m.to.r as int);
    assert(fs != ts) by {
        assert(slot_q(fs) == m.from.q as int && slot_r(fs) == m.from.r as int);
        assert(slot_q(ts) == m.to.q as int && slot_r(ts) == m.to.r as int);
    }
    let mid = b.update(fs, None);
    lemma_count_pieces_update(b, fs, None);
    lemma_count_pieces_update(mid, ts, Some(spec_placed_piece(m)));
    assert(mid[ts] == b[ts]);
}

/// Every move that the full generator emits belongs to the side to move,
/// stands on the board, and has the generated shape.
pub proof fn lemma_all_legal_moves_shape(b: Seq<Option<Piece>>, color: Color, i: int)
    requires
        board_wf(b),
    ensures
        forall|k: int|
            0 <= k < all_legal_from(b, color, i).len() ==> {
                let m = #[trigger] all_legal_from(b, color, i)[k];
                &&& m.piece.color == color
                &&& piece_wf(m.piece)
                &&& cell_in_box(m.from)
                &&& spec_valid_cell(m.to.q as int, m.to.r as int)
                &&& m.from != m.to
                &&& at_coord(b, m.from) == Some(m.piece)
                &&& m.captured == at_coord(b, m.to)
                &&& spec_move_safe(b, m)
            },
    decreases 81 - i,
{
    if 0 <= i < 81 && b.len() == 81 {
        lemma_all_legal_moves_shape(b, color, i + 1);
        let whole = all_legal_from(b, color, i);
        let right = all_legal_from(b, color, i + 1);
        let cell = HexCoord { q: slot_q(i) as i32, r: slot_r(i) as i32 };
        match b[i] {
            Some(p) => {
                if p.color == color {
                    let left = spec_legal_for(b, p, cell);
                    assert(-4 <= slot_q(i) <= 4 && -4 <= slot_r(i) <= 4) by (nonlinear_arith)
                        requires
                            0 <= i < 81,
                    {}
                    assert(slot_of(slot_q(i), slot_r(i)) == i) by (nonlinear_arith)
                        requires
                            0 <= i < 81,
                    {}
                    assert(at_coord(b, cell) == Some(p));
                    lemma_pseudo_moves_shape(b, p, cell);
                    let pred = |mm: Move| spec_move_safe(b, mm);
                    let pseudo = spec_pseudo_moves(b, p, cell);
                    lemma_filter_subset(pseudo, pred);
                    pseudo.filter_lemma(pred);
                    assert forall|k: int| 0 <= k < whole.len() implies {
                        let m = #[trigger] whole[k];
                        &&& m.piece.color == color
                        &&& piece_wf(m.piece)
                        &&& cell_in_box(m.from)
                        &&& spec_valid_cell(m.to.q as int, m.to.r as int)
                        &&& m.from != m.to
                        &&& at_coord(b, m.from) == Some(m.piece)
                        &&& m.captured == at_coord(b, m.to)
                        &&& spec_move_safe(b, m)
                    } by {
                        if k < left.len() {
                            let m = whole[k];
                            assert(m == left[k]);
                            assert(pred(left[k]));
                            assert(left.contains(m)) by {
                                assert(left[k] == m);
                            }
                            assert(pseudo.contains(m));
                            let j = choose|j: int|
                                0 <= j < pseudo.len() && pseudo[j] == m;
                            assert(move_shape_ok(b, p, cell, m));
                        } else {
                            assert(whole[k] == right[k - left.len()]);
                        }
                    }
                } else {
                    assert(forall|k: int|
                        0 <= k < whole.len() ==> #[trigger] whole[k] == right[k]);
                }
            },
            None => {
                assert(forall|k: int|
                    0 <= k < whole.len() ==> #[trigger] whole[k] == right[k]);
            },
        }
    }
}

// ============================================================================
// Attack detection matches move generation
// ============================================================================

/// Every piece stands on a valid cell of the hex board (no piece on a
/// hex-invalid corner of the coordinate box).
pub open spec fn pieces_on_valid_cells(b: Seq<Option<Piece>>) -> bool {
    forall|i: int|
        0 <= i < 81 && (#[trigger] b[i]) is Some ==> spec_valid_cell(slot_q(i), slot_r(i))
}

/// Stepping in the opposite direction negates the delta.
proof fn lemma_opposite_delta(d: Direction)
    ensures
        dir_dq(spec_opposite(d)) == -dir_dq(d),
        dir_dr(spec_opposite(d)) == -dir_dr(d),
{
}

proof fn lemma_pawn_attack_dirs_witness(
    b: Seq<Option<Piece>>,
    t: HexCoord,
    by: Color,
    dirs: Seq<Direction>,
    j: int,
)
    requires
        0 <= j < dirs.len(),
        pawn_attack_in_dir(b, t, by, dirs[j]),
    ensures
        pawn_attack_dirs(b, t, by, dirs),
    decreases dirs.len(),
{
    if j > 0 {
        lemma_pawn_attack_dirs_witness(b, t, by, dirs.drop_first(), j - 1);
    }
}

proof fn lemma_king_attack_dirs_witness(
    b: Seq<Option<Piece>>,
    t: HexCoord,
    by: Color,
    dirs: Seq<Direction>,
    j: int,
)
    requires
        0 <= j < dirs.len(),
        king_attack_in_dir(b, t, by, dirs[j]),
    ensures
        king_attack_dirs(b, t, by, dirs),
    decreases dirs.len(),
{
    if j > 0 {
        lemma_king_attack_dirs_witness(b, t, by, dirs.drop_first(), j - 1);
    }
}

proof fn lemma_knight_attack_cells_witness(
    b: Seq<Option<Piece>>,
    by: Color,
    cells: Seq<HexCoord>,
    j: int,
)
    requires
        0 <= j < cells.len(),
        at_coord(b, cells[j]) is Some,
        at_coord(b, cells[j])->Some_0.piece_type == PieceType::Knight,
        at_coord(b, cells[j])->Some_0.color == by,
    ensures
        knight_attack_cells(b, by, cells),
    decreases cells.len(),
{
    if j > 0 {
        lemma_knight_attack_cells_witness(b, by, cells.drop_first(), j - 1);
    }
}

proof fn lemma_slider_attack_dirs_witness(
    b: Seq<Option<Piece>>,
    t: HexCoord,
    by: Color,
    dirs: Seq<Direction>,
    j: int,
)
    requires
        0 <= j < dirs.len(),
        ray_attack(b, by, dirs[j], spec_ray(t, dirs[j])),
    ensures
        slider_attack_dirs(b, t, by, dirs),
    decreases dirs.len(),
{
    if j > 0 {
        lemma_slider_attack_dirs_witness(b, t, by, dirs.drop_first(), j - 1);
    }
}

/// Every direction stands in the fixed listing of all six.
proof fn lemma_all_directions_complete(d: Direction)
    ensures
        exists|j: int|
            0 <= j < 6 && #[trigger] spec_all_directions()[j] == d,
{
    match d {
        Direction::N => {
            assert(spec_all_directions()[0] == d);
        },
        Direction::S => {
            assert(spec_all_directions()[1] == d);
        },
        Direction::NE => {
            assert(spec_all_directions()[2] == d);
        },
        Direction::SW => {
            assert(spec_all_directions()[3] == d);
        },
        Direction::NW => {
            assert(spec_all_directions()[4] == d);
        },
        Direction::SE => {
            assert(spec_all_directions()[5] == d);
        },
    }
}

/// Members of the pawn capture concatenation come from one direction.
proof fn lemma_pawn_captures_member(
    b: Seq<Option<Piece>>,
    p: Piece,
    from: HexCoord,
    dirs: Seq<Direction>,
    m: Move,
)
    requires
        pawn_captures_dirs(b, p, from, dirs).contains(m),
    ensures
        exists|j: int|
            0 <= j < dirs.len() && #[trigger] pawn_capture_in_dir(b, p, from, dirs[j]).contains(
                m,
            ),
    decreases dirs.len(),
{
    let left = pawn_capture_in_dir(b, p, from, dirs[0]);
    let whole = pawn_captures_dirs(b, p, from, dirs);
    let k = choose|k: int| 0 <= k < whole.len() && whole[k] == m;
    if k < left.len() {
        assert(left[k] == m);
        assert(left.contains(m));
        assert(pawn_capture_in_dir(b, p, from, dirs[0]).contains(m));
    } else {
        let rest = pawn_captures_dirs(b, p, from, dirs.drop_first());
        assert(rest[k - left.len()] == m);
        assert(rest.contains(m));
        lemma_pawn_captures_member(b, p, from, dirs.drop_first(), m);
        let j = choose|j: int|
            0 <= j < dirs.drop_first().len() && #[trigger] pawn_capture_in_dir(
                b,
                p,
                from,
                dirs.drop_first()[j],
            ).contains(m);
        assert(dirs[j + 1] == dirs.drop_first()[j]);
        assert(pawn_capture_in_dir(b, p, from, dirs[j + 1]).contains(m));
    }
}

/// Members of the king step concatenation come from one direction.
proof fn lemma_king_moves_member(
    b: Seq<Option<Piece>>,
    p: Piece,
    from: HexCoord,
    dirs: Seq<Direction>,
    m: Move,
)
    requires
        king_moves_dirs(b, p, from, dirs).contains(m),
    ensures
        exists|j: int|
            0 <= j < dirs.len() && #[trigger] king_move_in_dir(b, p, from, dirs[j]).contains(m),
    decreases dirs.len(),
{
    let left = king_move_in_dir(b, p, from, dirs[0]);
    let whole = king_moves_dirs(b, p, from, dirs);
    let k = choose|k: int| 0 <= k < whole.len() && whole[k] == m;
    if k < left.len() {
        assert(left[k] == m);
        assert(left.contains(m));
        assert(king_move_in_dir(b, p, from, dirs[0]).contains(m));
    } else {
        let rest = king_moves_dirs(b, p, from, dirs.drop_first());
        assert(rest[k - left.len()] == m);
        assert(rest.contains(m));
        lemma_king_moves_member(b, p, from, dirs.drop_first(), m);
        let j = choose|j: int|
            0 <= j < dirs.drop_first().len() && #[trigger] king_move_in_dir(
                b,
                p,
                from,
                dirs.drop_first()[j],
            ).contains(m);
        assert(dirs[j + 1] == dirs.drop_first()[j]);
        assert(king_move_in_dir(b, p, from, dirs[j + 1]).contains(m));
    }
}

/// Members of the knight leap list land on one of the target cells, which
/// then holds the recorded capture.
proof fn lemma_knight_moves_member(
    b: Seq<Option<Piece>>,
    p: Piece,
    from: HexCoord,
    cells: Seq<HexCoord>,
    m: Move,
)
    requires
        knight_moves_targets(b, p, from, cells).contains(m),
    ensures
        exists|j: int| 0 <= j < cells.len() && #[trigger] cells[j] == m.to,
        m.captured == at_coord(b, m.to),
    decreases cells.len(),
{
    let whole = knight_moves_targets(b, p, from, cells);
    let left: Seq<Move> = if !spec_has_friendly(b, cells[0], p.color) {
        seq![
            Move {
                from,
                to: cells[0],
                piece: p,
                captured: at_coord(b, cells[0]),
                promotion: None,
            },
        ]
    } else {
        Seq::empty()
    };
    let k = choose|k: int| 0 <= k < whole.len() && whole[k] == m;
    if k < left.len() {
        assert(whole[k] == left[k]);
        assert(m == left[0]);
        assert(cells[0] == m.to);
    } else {
        let rest = knight_moves_targets(b, p, from, cells.drop_first());
        assert(whole[k] == rest[k - left.len()]);
        assert(rest.contains(m));
        lemma_knight_moves_member(b, p, from, cells.drop_first(), m);
        let j = choose|j: int|
            0 <= j < cells.drop_first().len() && #[trigger] cells.drop_first()[j] == m.to;
        assert(cells[j + 1] == m.to);
    }
}

/// Members of the slider concatenation come from one ray direction.
proof fn lemma_slider_moves_member(
    b: Seq<Option<Piece>>,
    p: Piece,
    from: HexCoord,
    dirs: Seq<Direction>,
    m: Move,
)
    requires
        slider_moves_dirs(b, p, from, dirs).contains(m),
    ensures
        exists|j: int|
            0 <= j < dirs.len() && #[trigger] slide_along(
                b,
                p,
                from,
                spec_ray(from, dirs[j]),
            ).contains(m),
    decreases dirs.len(),
{
    let left = slide_along(b, p, from, spec_ray(from, dirs[0]));
    let whole = slider_moves_dirs(b, p, from, dirs);
    let k = choose|k: int| 0 <= k < whole.len() && whole[k] == m;
    if k < left.len() {
        assert(left[k] == m);
        assert(left.contains(m));
        assert(slide_along(b, p, from, spec_ray(from, dirs[0])).contains(m));
    } else {
        let rest = slider_moves_dirs(b, p, from, dirs.drop_first());
        assert(rest[k - left.len()] == m);
        assert(rest.contains(m));
        lemma_slider_moves_member(b, p, from, dirs.drop_first(), m);
        let j = choose|j: int|
            0 <= j < dirs.drop_first().len() && #[trigger] slide_along(
                b,
                p,
                from,
                spec_ray(from, dirs.drop_first()[j]),
            ).contains(m);
        assert(dirs[j + 1] == dirs.drop_first()[j]);
        assert(slide_along(b, p, from, spec_ray(from, dirs[j + 1])).contains(m));
    }
}

/// A capturing slide stops at the first occupied ray cell: the cells before
/// it are empty and it holds the captured enemy.
proof fn lemma_slide_capture_structure(
    b: Seq<Option<Piece>>,
    p: Piece,
    from: HexCoord,
    ray: Seq<HexCoord>,
    m: Move,
)
    requires
        slide_along(b, p, from, ray).contains(m),
        m.captured is Some,
    ensures
        exists|k: int|
            {
                &&& 0 <= k < ray.len()
                &&& #[trigger] ray[k] == m.to
                &&& at_coord(b, ray[k]) == m.captured
                &&& at_coord(b, ray[k])->Some_0.color != p.color
                &&& forall|j: int| 0 <= j < k ==> at_coord(b, #[trigger] ray[j]) is None
            },
    decreases ray.len(),
{
    let whole = slide_along(b, p, from, ray);
    let t = ray[0];
    match at_coord(b, t) {
        Some(other) => {
            assert(whole[0] == m);
            assert(ray[0] == m.to && at_coord(b, ray[0]) == m.captured);
        },
        None => {
            let kk = choose|kk: int| 0 <= kk < whole.len() && whole[kk] == m;
            if kk == 0 {
                assert(whole[0].captured is None);
                assert(false);
            }
            let rest = slide_along(b, p, from, ray.drop_first());
            assert(whole[kk] == rest[kk - 1]);
            assert(rest.contains(m));
            lemma_slide_capture_structure(b, p, from, ray.drop_first(), m);
            let k = choose|k: int|
                {
                    &&& 0 <= k < ray.drop_first().len()
                    &&& #[trigger] ray.drop_first()[k] == m.to
                    &&& at_coord(b, ray.drop_first()[k]) == m.captured
                    &&& at_coord(b, ray.drop_first()[k])->Some_0.color != p.color
                    &&& forall|j: int|
                        0 <= j < k ==> at_coord(b, #[trigger] ray.drop_first()[j]) is None
                };
            assert(ray[k + 1] == m.to && at_coord(b, ray[k + 1]) == m.captured);
            assert forall|j: int| 0 <= j < k + 1 implies at_coord(
                b,
                #[trigger] ray[j],
            ) is None by {
                if j > 0 {
                    assert(ray.drop_first()[j - 1] == ray[j]);
                }
            }
        },
    }
}

/// A ray runs at least as far as its steps stay on the board.
proof fn lemma_ray_reaches(c: HexCoord, d: Direction, cap: int)
    requires
        cap >= 0,
        forall|j: int|
            1 <= j <= cap ==> spec_valid_cell(
                c.q + #[trigger] (j * dir_dq(d)),
                c.r + j * dir_dr(d),
            ),
    ensures
        spec_ray(c, d).len() >= cap,
    decreases cap,
{
    if cap > 0 {
        assert(spec_valid_cell(c.q + 1 * dir_dq(d), c.r + 1 * dir_dr(d)));
        assert(spec_valid_cell(c.q + dir_dq(d), c.r + dir_dr(d)));
        let n = coord_step(c, d);
        assert forall|j: int| 1 <= j <= cap - 1 implies spec_valid_cell(
            n.q + #[trigger] (j * dir_dq(d)),
            n.r + j * dir_dr(d),
        ) by {
            assert(n.q + j * dir_dq(d) == c.q + (j + 1) * dir_dq(d) && n.r + j * dir_dr(d) == c.r
                + (j + 1) * dir_dr(d)) by (nonlinear_arith)
                requires
                    n.q == c.q + dir_dq(d),
                    n.r == c.r + dir_dr(d),
            {}
        }
        lemma_ray_reaches(n, d, cap - 1);
    }
}

/// Rays blocked only by empty cells attack through: the first piece the
/// walk meets is at index `k` and attacks.
proof fn lemma_ray_attack_through(
    b: Seq<Option<Piece>>,
    by: Color,
    d: Direction,
    ray: Seq<HexCoord>,
    k: int,
)
    requires
        0 <= k < ray.len(),
        forall|j: int| 0 <= j < k ==> at_coord(b, #[trigger] ray[j]) is None,
        at_coord(b, ray[k]) is Some,
        at_coord(b, ray[k])->Some_0.color == by,
        spec_is_slider(at_coord(b, ray[k])->Some_0),
        spec_piece_directions(at_coord(b, ray[k])->Some_0).contains(spec_opposite(d)),
    ensures
        ray_attack(b, by, d, ray),
    decreases k,
{
    if k > 0 {
        assert(at_coord(b, ray[0]) is None);
        assert forall|j: int| 0 <= j < k - 1 implies at_coord(
            b,
            #[trigger] ray.drop_first()[j],
        ) is None by {
            assert(ray.drop_first()[j] == ray[j + 1]);
        }
        assert(ray.drop_first()[k - 1] == ray[k]);
        lemma_ray_attack_through(b, by, d, ray.drop_first(), k - 1);
    }
}

/// Attack detection matches move generation, forward direction: a
/// pseudo-legal capture by a piece of `p.color` standing on a valid cell
/// means the capture target reads as attacked by that color. A capture by
/// a piece parked on a hex-invalid corner of the coordinate box (as three
/// pieces per side are in the standard starting position) is not seen by
/// the attack scan, which walks only valid cells; such origins are excluded
/// here.
#[verifier::rlimit(100)]
pub proof fn lemma_capture_implies_attacked(
    b: Seq<Option<Piece>>,
    p: Piece,
    from: HexCoord,
    m: Move,
)
    requires
        b.len() == 81,
        spec_valid_cell(from.q as int, from.r as int),
        at_coord(b, from) == Some(p),
        spec_pseudo_moves(b, p, from).contains(m),
        m.captured is Some,
    ensures
        spec_attacked(b, m.to, p.color),
{
    lemma_pseudo_moves_shape_contains(b, p, from, m);
    let t = m.to;
    let by = p.color;
    match p.piece_type {
        PieceType::Pawn => {
            // The forward step never captures, so the move comes from a
            // capture direction.
            let fwd = pawn_forward_moves(b, p, from);
            let caps = pawn_captures_dirs(b, p, from, spec_pawn_capture_directions(by));
            let k = choose|k: int|
                0 <= k < spec_pawn_moves(b, p, from).len() && spec_pawn_moves(b, p, from)[k]
                    == m;
            if k < fwd.len() {
                assert(fwd[k] == m);
                match spec_neighbor(from, spec_forward_direction(by)) {
                    Some(ft) => {
                        assert(at_coord(b, ft) is None);
                        assert(m.captured is None);
                        assert(false);
                    },
                    None => {
                        assert(false);
                    },
                }
            } else {
                assert(caps[k - fwd.len()] == m);
                assert(caps.contains(m));
                lemma_pawn_captures_member(b, p, from, spec_pawn_capture_directions(by), m);
                let j = choose|j: int|
                    0 <= j < spec_pawn_capture_directions(by).len()
                        && #[trigger] pawn_capture_in_dir(
                        b,
                        p,
                        from,
                        spec_pawn_capture_directions(by)[j],
                    ).contains(m);
                let d = spec_pawn_capture_directions(by)[j];
                match spec_neighbor(from, d) {
                    Some(target) => {
                        assert(pawn_capture_in_dir(b, p, from, d)[0].to == target);
                        assert(m.to == target) by {
                            let w = pawn_capture_in_dir(b, p, from, d);
                            let kk = choose|kk: int| 0 <= kk < w.len() && w[kk] == m;
                            assert(w[kk].to == target);
                        }
                        lemma_opposite_delta(d);
                        assert(spec_neighbor(t, spec_opposite(d)) == Some(from));
                        assert(pawn_attack_in_dir(b, t, by, d));
                        lemma_pawn_attack_dirs_witness(
                            b,
                            t,
                            by,
                            spec_pawn_capture_directions(by),
                            j,
                        );
                    },
                    None => {
                        assert(false);
                    },
                }
            }
        },
        PieceType::King => {
            lemma_king_moves_member(b, p, from, spec_all_directions(), m);
            let j = choose|j: int|
                0 <= j < spec_all_directions().len() && #[trigger] king_move_in_dir(
                    b,
                    p,
                    from,
                    spec_all_directions()[j],
                ).contains(m);
            let d = spec_all_directions()[j];
            match spec_neighbor(from, d) {
                Some(target) => {
                    assert(m.to == target) by {
                        let w = king_move_in_dir(b, p, from, d);
                        let kk = choose|kk: int| 0 <= kk < w.len() && w[kk] == m;
                        assert(w[kk].to == target);
                    }
                    lemma_opposite_delta(d);
                    assert(spec_neighbor(t, spec_opposite(d)) == Some(from));
                    assert(king_attack_in_dir(b, t, by, spec_opposite(d)));
                    lemma_all_directions_complete(spec_opposite(d));
                    let jj = choose|jj: int|
                        0 <= jj < 6 && #[trigger] spec_all_directions()[jj] == spec_opposite(d);
                    lemma_king_attack_dirs_witness(b, t, by, spec_all_directions(), jj);
                },
                None => {
                    assert(false);
                },
            }
        },
        PieceType::Knight => {
            lemma_knight_moves_member(b, p, from, spec_knight_targets(from), m);
            lemma_knight_reverse(b, p, from, m.to);
            let jj = choose|jj: int|
                0 <= jj < spec_knight_targets(t).len() && #[trigger] spec_knight_targets(t)[jj]
                    == from;
            lemma_knight_attack_cells_witness(b, by, spec_knight_targets(t), jj);
        },
        _ => {
            lemma_slider_moves_member(b, p, from, spec_piece_directions(p), m);
            let j = choose|j: int|
                0 <= j < spec_piece_directions(p).len() && #[trigger] slide_along(
                    b,
                    p,
                    from,
                    spec_ray(from, spec_piece_directions(p)[j]),
                ).contains(m);
            let d = spec_piece_directions(p)[j];
            let ray1 = spec_ray(from, d);
            lemma_slide_capture_structure(b, p, from, ray1, m);
            let k = choose|k: int|
                {
                    &&& 0 <= k < ray1.len()
                    &&& #[trigger] ray1[k] == m.to
                    &&& at_coord(b, ray1[k]) == m.captured
                    &&& at_coord(b, ray1[k])->Some_0.color != p.color
                    &&& forall|j2: int| 0 <= j2 < k ==> at_coord(b, #[trigger] ray1[j2]) is None
                };
            crate::hex::lemma_ray_on_line(from, d);
            lemma_opposite_delta(d);
            let rd = spec_opposite(d);
            let ray2 = spec_ray(t, rd);
            // Every step of the reverse walk up to the attacker is a valid
            // cell, so the reverse ray reaches the attacker.
            assert forall|i: int| 1 <= i <= k + 1 implies spec_valid_cell(
                t.q + #[trigger] (i * dir_dq(rd)),
                t.r + i * dir_dr(rd),
            ) by {
                assert(t.q == from.q + (k + 1) * dir_dq(d) && t.r == from.r + (k + 1) * dir_dr(
                    d,
                ));
                assert(t.q + i * dir_dq(rd) == from.q + (k + 1 - i) * dir_dq(d) && t.r + i
                    * dir_dr(rd) == from.r + (k + 1 - i) * dir_dr(d)) by (nonlinear_arith)
                    requires
                        dir_dq(rd) == -dir_dq(d),
                        dir_dr(rd) == -dir_dr(d),
                        t.q == from.q + (k + 1) * dir_dq(d),
                        t.r == from.r + (k + 1) * dir_dr(d),
                {}
                if i == k + 1 {
                    assert(from.q + 0 * dir_dq(d) == from.q && from.r + 0 * dir_dr(d) == from.r)
                        by (nonlinear_arith)
                    {}
                } else {
                    let j2 = k - i;
                    assert(ray1[j2].q == from.q + (j2 + 1) * dir_dq(d) && ray1[j2].r == from.r
                        + (j2 + 1) * dir_dr(d));
                    assert(spec_valid_cell(ray1[j2].q as int, ray1[j2].r as int));
                }
            }
            lemma_ray_reaches(t, rd, k + 1);
            crate::hex::lemma_ray_on_line(t, rd);
            // The reverse walk crosses the same empty cells and meets the
            // slider on the attacker's cell.
            assert forall|i: int| 0 <= i < k implies at_coord(
                b,
                #[trigger] ray2[i],
            ) is None by {
                let j2 = k - 1 - i;
                assert(ray2[i].q == t.q + (i + 1) * dir_dq(rd) && ray2[i].r == t.r + (i + 1)
                    * dir_dr(rd));
                assert(ray2[i].q == ray1[j2].q && ray2[i].r == ray1[j2].r) by (nonlinear_arith)
                    requires
                        dir_dq(rd) == -dir_dq(d),
                        dir_dr(rd) == -dir_dr(d),
                        t.q == from.q + (k + 1) * dir_dq(d),
                        t.r == from.r + (k + 1) * dir_dr(d),
                        ray2[i].q == t.q + (i + 1) * dir_dq(rd),
                        ray2[i].r == t.r + (i + 1) * dir_dr(rd),
                        ray1[j2].q == from.q + (j2 + 1) * dir_dq(d),
                        ray1[j2].r == from.r + (j2 + 1) * dir_dr(d),
                        j2 == k - 1 - i,
                {}
                assert(ray2[i] == ray1[j2]);
            }
            assert(ray2[k] == from) by {
                assert(ray2[k].q == t.q + (k + 1) * dir_dq(rd) && ray2[k].r == t.r + (k + 1)
                    * dir_dr(rd));
                assert(ray2[k].q == from.q && ray2[k].r == from.r) by (nonlinear_arith)
                    requires
                        dir_dq(rd) == -dir_dq(d),
                        dir_dr(rd) == -dir_dr(d),
                        t.q == from.q + (k + 1) * dir_dq(d),
                        t.r == from.r + (k + 1) * dir_dr(d),
                        ray2[k].q == t.q + (k + 1) * dir_dq(rd),
                        ray2[k].r == t.r + (k + 1) * dir_dr(rd),
                {}
            }
            assert(spec_is_slider(p));
            assert(spec_piece_directions(p).contains(spec_opposite(rd))) by {
                assert(spec_opposite(rd) == d);
                assert(spec_piece_directions(p)[j] == d);
            }
            lemma_ray_attack_through(b, by, rd, ray2, k);
            lemma_all_directions_complete(rd);
            let jj = choose|jj: int|
                0 <= jj < 6 && #[trigger] spec_all_directions()[jj] == rd;
            lemma_slider_attack_dirs_witness(b, t, by, spec_all_directions(), jj);
        },
    }
}

/// The knight leap sits in the reverse leap set: when `to` is a knight
/// target of `from`, then `from` is a knight target of `to`.
proof fn lemma_knight_reverse(b: Seq<Option<Piece>>, p: Piece, from: HexCoord, to: HexCoord)
    requires
        spec_valid_cell(from.q as int, from.r as int),
        exists|j: int|
            0 <= j < spec_knight_targets(from).len() && #[trigger] spec_knight_targets(from)[j]
                == to,
    ensures
        exists|jj: int|
            0 <= jj < spec_knight_targets(to).len() && #[trigger] spec_knight_targets(to)[jj]
                == from,
{
    let pred_from = |c: HexCoord| spec_valid_cell(c.q as int, c.r as int);
    let mapped_from = crate::hex::knight_offsets().map_values(
        |o: (int, int)| HexCoord { q: (from.q + o.0) as i32, r: (from.r + o.1) as i32 },
    );
    let j = choose|j: int|
        0 <= j < spec_knight_targets(from).len() && #[trigger] spec_knight_targets(from)[j]
            == to;
    mapped_from.filter_lemma(pred_from);
    lemma_filter_subset(mapped_from, pred_from);
    assert(spec_knight_targets(from).contains(to)) by {
        assert(spec_knight_targets(from)[j] == to);
    }
    assert(mapped_from.contains(to));
    let oj = choose|oj: int| 0 <= oj < mapped_from.len() && mapped_from[oj] == to;
    // The offset list is closed under negation: the reverse leap uses the
    // mirrored offset.
    let offs = crate::hex::knight_offsets();
    let back: int = if oj == 0 {
        4
    } else if oj == 1 {
        3
    } else if oj == 2 {
        5
    } else if oj == 3 {
        1
    } else if oj == 4 {
        0
    } else {
        2
    };
    assert(offs[back].0 == -offs[oj].0 && offs[back].1 == -offs[oj].1);
    let mapped_to = offs.map_values(
        |o: (int, int)| HexCoord { q: (to.q + o.0) as i32, r: (to.r + o.1) as i32 },
    );
    assert(mapped_to[back] == from) by {
        assert(to.q == from.q + offs[oj].0 && to.r == from.r + offs[oj].1);
    }
    mapped_to.filter_lemma(|c: HexCoord| spec_valid_cell(c.q as int, c.r as int));
    assert(spec_knight_targets(to).contains(from));
    let jj = choose|jj: int|
        0 <= jj < spec_knight_targets(to).len() && spec_knight_targets(to)[jj] == from;
    assert(spec_knight_targets(to)[jj] == from);
}

/// Containment form of the pseudo-move shape lemma.
proof fn lemma_pseudo_moves_shape_contains(
    b: Seq<Option<Piece>>,
    p: Piece,
    from: HexCoord,
    m: Move,
)
    requires
        cell_in_box(from),
        spec_pseudo_moves(b, p, from).contains(m),
    ensures
        move_shape_ok(b, p, from, m),
{
    lemma_pseudo_moves_shape(b, p, from);
    let k = choose|k: int|
        0 <= k < spec_pseudo_moves(b, p, from).len() && spec_pseudo_moves(b, p, from)[k] == m;
    assert(move_shape_ok(b, p, from, spec_pseudo_moves(b, p, from)[k]));
}

/// Attack detection matches move generation for whole positions: any legal
/// capture by `color` on a board whose pieces all stand on valid cells has
/// an attacked destination.
pub proof fn lemma_legal_capture_attacks(b: Seq<Option<Piece>>, color: Color, m: Move)
    requires
        board_wf(b),
        pieces_on_valid_cells(b),
        spec_all_legal_moves(b, color).contains(m),
        m.captured is Some,
    ensures
        spec_attacked(b, m.to, color),
{
    lemma_all_legal_member(b, color, 0, m);
    let i = choose|i: int|
        {
            &&& 0 <= i < 81
            &&& b[i] is Some
            &&& b[i]->Some_0.color == color
            &&& #[trigger] spec_legal_for(
                b,
                b[i]->Some_0,
                HexCoord { q: slot_q(i) as i32, r: slot_r(i) as i32 },
            ).contains(m)
        };
    let from = HexCoord { q: slot_q(i) as i32, r: slot_r(i) as i32 };
    let p = b[i]->Some_0;
    let pred = |mm: Move| spec_move_safe(b, mm);
    lemma_filter_subset(spec_pseudo_moves(b, p, from), pred);
    assert(spec_pseudo_moves(b, p, from).contains(m));
    assert(spec_valid_cell(slot_q(i), slot_r(i)));
    assert(at_coord(b, from) == Some(p)) by {
        lemma_slot_bijection();
    }
    lemma_capture_implies_attacked(b, p, from, m);
}

/// Members of the all-moves scan come from some occupied slot of the moving
/// color.
proof fn lemma_all_legal_member(b: Seq<Option<Piece>>, color: Color, i: int, m: Move)
    requires
        b.len() == 81,
        all_legal_from(b, color, i).contains(m),
    ensures
        exists|s: int|
            {
                &&& 0 <= s < 81
                &&& b[s] is Some
                &&& b[s]->Some_0.color == color
                &&& #[trigger] spec_legal_for(
                    b,
                    b[s]->Some_0,
                    HexCoord { q: slot_q(s) as i32, r: slot_r(s) as i32 },
                ).contains(m)
            },
    decreases 81 - i,
{
    if 0 <= i < 81 {
        let whole = all_legal_from(b, color, i);
        let left: Seq<Move> = match b[i] {
            Some(p) => if p.color == color {
                spec_legal_for(b, p, HexCoord { q: slot_q(i) as i32, r: slot_r(i) as i32 })
            } else {
                Seq::empty()
            },
            None => Seq::empty(),
        };
        let k = choose|k: int| 0 <= k < whole.len() && whole[k] == m;
        if k < left.len() {
            assert(left[k] == m);
            assert(left.contains(m));
            assert(spec_legal_for(
                b,
                b[i]->Some_0,
                HexCoord { q: slot_q(i) as i32, r: slot_r(i) as i32 },
            ).contains(m));
        } else {
            let rest = all_legal_from(b, color, i + 1);
            assert(rest[k - left.len()] == m);
            assert(rest.contains(m));
            lemma_all_legal_member(b, color, i + 1, m);
        }
    } else {
        assert(false);
    }
}

// ============================================================================
// Attack detection matches move generation: converse direction
// ============================================================================

proof fn lemma_pawn_attack_dirs_extract(
    b: Seq<Option<Piece>>,
    t: HexCoord,
    by: Color,
    dirs: Seq<Direction>,
)
    requires
        pawn_attack_dirs(b, t, by, dirs),
    ensures
        exists|j: int| 0 <= j < dirs.len() && pawn_attack_in_dir(b, t, by, #[trigger] dirs[j]),
    decreases dirs.len(),
{
    if pawn_attack_in_dir(b, t, by, dirs[0]) {
        assert(pawn_attack_in_dir(b, t, by, dirs[0]));
    } else {
        lemma_pawn_attack_dirs_extract(b, t, by, dirs.drop_first());
        let j = choose|j: int|
            0 <= j < dirs.drop_first().len() && pawn_attack_in_dir(
                b,
                t,
                by,
                #[trigger] dirs.drop_first()[j],
            );
        assert(pawn_attack_in_dir(b, t, by, dirs[j + 1]));
    }
}

proof fn lemma_king_attack_dirs_extract(
    b: Seq<Option<Piece>>,
    t: HexCoord,
    by: Color,
    dirs: Seq<Direction>,
)
    requires
        king_attack_dirs(b, t, by, dirs),
    ensures
        exists|j: int| 0 <= j < dirs.len() && king_attack_in_dir(b, t, by, #[trigger] dirs[j]),
    decreases dirs.len(),
{
    if king_attack_in_dir(b, t, by, dirs[0]) {
        assert(king_attack_in_dir(b, t, by, dirs[0]));
    } else {
        lemma_king_attack_dirs_extract(b, t, by, dirs.drop_first());
        let j = choose|j: int|
            0 <= j < dirs.drop_first().len() && king_attack_in_dir(
                b,
                t,
                by,
                #[trigger] dirs.drop_first()[j],
            );
        assert(king_attack_in_dir(b, t, by, dirs[j + 1]));
    }
}

proof fn lemma_knight_attack_cells_extract(b: Seq<Option<Piece>>, by: Color, cells: Seq<HexCoord>)
    requires
        knight_attack_cells(b, by, cells),
    ensures
        exists|j: int|
            {
                &&& 0 <= j < cells.len()
                &&& at_coord(b, #[trigger] cells[j]) is Some
                &&& at_coord(b, cells[j])->Some_0.piece_type == PieceType::Knight
                &&& at_coord(b, cells[j])->Some_0.color == by
            },
    decreases cells.len(),
{
    let hit0 = match at_coord(b, cells[0]) {
        Some(p) => p.piece_type == PieceType::Knight && p.color == by,
        None => false,
    };
    if hit0 {
        assert(at_coord(b, cells[0]) is Some);
    } else {
        lemma_knight_attack_cells_extract(b, by, cells.drop_first());
        let j = choose|j: int|
            {
                &&& 0 <= j < cells.drop_first().len()
                &&& at_coord(b, #[trigger] cells.drop_first()[j]) is Some
                &&& at_coord(b, cells.drop_first()[j])->Some_0.piece_type == PieceType::Knight
                &&& at_coord(b, cells.drop_first()[j])->Some_0.color == by
            };
        assert(cells[j + 1] == cells.drop_first()[j]);
    }
}

proof fn lemma_slider_attack_dirs_extract(
    b: Seq<Option<Piece>>,
    t: HexCoord,
    by: Color,
    dirs: Seq<Direction>,
)
    requires
        slider_attack_dirs(b, t, by, dirs),
    ensures
        exists|j: int|
            0 <= j < dirs.len() && ray_attack(b, by, #[trigger] dirs[j], spec_ray(t, dirs[j])),
    decreases dirs.len(),
{
    if ray_attack(b, by, dirs[0], spec_ray(t, dirs[0])) {
        assert(ray_attack(b, by, dirs[0], spec_ray(t, dirs[0])));
    } else {
        lemma_slider_attack_dirs_extract(b, t, by, dirs.drop_first());
        let j = choose|j: int|
            0 <= j < dirs.drop_first().len() && ray_attack(
                b,
                by,
                #[trigger] dirs.drop_first()[j],
                spec_ray(t, dirs.drop_first()[j]),
            );
        assert(dirs[j + 1] == dirs.drop_first()[j]);
        assert(ray_attack(b, by, dirs[j + 1], spec_ray(t, dirs[j + 1])));
    }
}

/// The attacking walk meets its first piece at some index, everything
/// before it empty, and that piece attacks back down the ray.
proof fn lemma_ray_attack_extract(b: Seq<Option<Piece>>, by: Color, d: Direction, ray: Seq<HexCoord>)
    requires
        ray_attack(b, by, d, ray),
    ensures
        exists|k: int|
            {
                &&& 0 <= k < ray.len()
                &&& at_coord(b, #[trigger] ray[k]) is Some
                &&& at_coord(b, ray[k])->Some_0.color == by
                &&& spec_is_slider(at_coord(b, ray[k])->Some_0)
                &&& spec_piece_directions(at_coord(b, ray[k])->Some_0).contains(spec_opposite(d))
                &&& forall|j: int| 0 <= j < k ==> at_coord(b, #[trigger] ray[j]) is None
            },
    decreases ray.len(),
{
    match at_coord(b, ray[0]) {
        Some(p) => {
            assert(at_coord(b, ray[0]) is Some);
        },
        None => {
            lemma_ray_attack_extract(b, by, d, ray.drop_first());
            let k = choose|k: int|
                {
                    &&& 0 <= k < ray.drop_first().len()
                    &&& at_coord(b, #[trigger] ray.drop_first()[k]) is Some
                    &&& at_coord(b, ray.drop_first()[k])->Some_0.color == by
                    &&& spec_is_slider(at_coord(b, ray.drop_first()[k])->Some_0)
                    &&& spec_piece_directions(at_coord(b, ray.drop_first()[k])->Some_0).contains(
                        spec_opposite(d),
                    )
                    &&& forall|j: int|
                        0 <= j < k ==> at_coord(b, #[trigger] ray.drop_first()[j]) is None
                };
            assert(ray[k + 1] == ray.drop_first()[k]);
            assert forall|j: int| 0 <= j < k + 1 implies at_coord(
                b,
                #[trigger] ray[j],
            ) is None by {
                if j > 0 {
                    assert(ray.drop_first()[j - 1] == ray[j]);
                }
            }
        },
    }
}

proof fn lemma_pawn_captures_build(
    b: Seq<Option<Piece>>,
    p: Piece,
    from: HexCoord,
    dirs: Seq<Direction>,
    j: int,
    m: Move,
)
    requires
        0 <= j < dirs.len(),
        pawn_capture_in_dir(b, p, from, dirs[j]).contains(m),
    ensures
        pawn_captures_dirs(b, p, from, dirs).contains(m),
    decreases dirs.len(),
{
    let whole = pawn_captures_dirs(b, p, from, dirs);
    let left = pawn_capture_in_dir(b, p, from, dirs[0]);
    if j == 0 {
        let k = choose|k: int| 0 <= k < left.len() && left[k] == m;
        assert(whole[k] == m);
    } else {
        assert(dirs.drop_first()[j - 1] == dirs[j]);
        lemma_pawn_captures_build(b, p, from, dirs.drop_first(), j - 1, m);
        let rest = pawn_captures_dirs(b, p, from, dirs.drop_first());
        let k = choose|k: int| 0 <= k < rest.len() && rest[k] == m;
        assert(whole[left.len() + k] == m);
    }
}

proof fn lemma_king_moves_build(
    b: Seq<Option<Piece>>,
    p: Piece,
    from: HexCoord,
    dirs: Seq<Direction>,
    j: int,
    m: Move,
)
    requires
        0 <= j < dirs.len(),
        king_move_in_dir(b, p, from, dirs[j]).contains(m),
    ensures
        king_moves_dirs(b, p, from, dirs).contains(m),
    decreases dirs.len(),
{
    let whole = king_moves_dirs(b, p, from, dirs);
    let left = king_move_in_dir(b, p, from, dirs[0]);
    if j == 0 {
        let k = choose|k: int| 0 <= k < left.len() && left[k] == m;
        assert(whole[k] == m);
    } else {
        assert(dirs.drop_first()[j - 1] == dirs[j]);
        lemma_king_moves_build(b, p, from, dirs.drop_first(), j - 1, m);
        let rest = king_moves_dirs(b, p, from, dirs.drop_first());
        let k = choose|k: int| 0 <= k < rest.len() && rest[k] == m;
        assert(whole[left.len() + k] == m);
    }
}

proof fn lemma_knight_moves_build(
    b: Seq<Option<Piece>>,
    p: Piece,
    from: HexCoord,
    cells: Seq<HexCoord>,
    j: int,
)
    requires
        0 <= j < cells.len(),
        !spec_has_friendly(b, cells[j], p.color),
    ensures
        knight_moves_targets(b, p, from, cells).contains(
            Move {
                from,
                to: cells[j],
                piece: p,
                captured: at_coord(b, cells[j]),
                promotion: None,
            },
        ),
    decreases cells.len(),
{
    let whole = knight_moves_targets(b, p, from, cells);
    let m = Move { from, to: cells[j], piece: p, captured: at_coord(b, cells[j]), promotion: None };
    if j == 0 {
        assert(whole[0] == m);
    } else {
        assert(cells.drop_first()[j - 1] == cells[j]);
        lemma_knight_moves_build(b, p, from, cells.drop_first(), j - 1);
        let rest = knight_moves_targets(b, p, from, cells.drop_first());
        let k = choose|k: int| 0 <= k < rest.len() && rest[k] == m;
        let left: Seq<Move> = if !spec_has_friendly(b, cells[0], p.color) {
            seq![
                Move {
                    from,
                    to: cells[0],
                    piece: p,
                    captured: at_coord(b, cells[0]),
                    promotion: None,
                },
            ]
        } else {
            Seq::empty()
        };
        assert(whole[left.len() + k] == m);
    }
}

/// A ray whose first `k` cells are empty and whose cell `k` holds an enemy
/// produces the capture of that cell.
proof fn lemma_slide_along_build(
    b: Seq<Option<Piece>>,
    p: Piece,
    from: HexCoord,
    ray: Seq<HexCoord>,
    k: int,
)
    requires
        0 <= k < ray.len(),
        forall|j: int| 0 <= j < k ==> at_coord(b, #[trigger] ray[j]) is None,
        at_coord(b, ray[k]) is Some,
        at_coord(b, ray[k])->Some_0.color != p.color,
    ensures
        slide_along(b, p, from, ray).contains(
            Move {
                from,
                to: ray[k],
                piece: p,
                captured: at_coord(b, ray[k]),
                promotion: None,
            },
        ),
    decreases k,
{
    let whole = slide_along(b, p, from, ray);
    let m = Move { from, to: ray[k], piece: p, captured: at_coord(b, ray[k]), promotion: None };
    if k == 0 {
        assert(whole[0] == m);
    } else {
        assert(at_coord(b, ray[0]) is None);
        assert forall|j: int| 0 <= j < k - 1 implies at_coord(
            b,
            #[trigger] ray.drop_first()[j],
        ) is None by {
            assert(ray.drop_first()[j] == ray[j + 1]);
        }
        assert(ray.drop_first()[k - 1] == ray[k]);
        lemma_slide_along_build(b, p, from, ray.drop_first(), k - 1);
        let rest = slide_along(b, p, from, ray.drop_first());
        let kk = choose|kk: int| 0 <= kk < rest.len() && rest[kk] == m;
        assert(whole[1 + kk] == m);
    }
}

proof fn lemma_slider_moves_build(
    b: Seq<Option<Piece>>,
    p: Piece,
    from: HexCoord,
    dirs: Seq<Direction>,
    j: int,
    m: Move,
)
    requires
        0 <= j < dirs.len(),
        slide_along(b, p, from, spec_ray(from, dirs[j])).contains(m),
    ensures
        slider_moves_dirs(b, p, from, dirs).contains(m),
    decreases dirs.len(),
{
    let whole = slider_moves_dirs(b, p, from, dirs);
    let left = slide_along(b, p, from, spec_ray(from, dirs[0]));
    if j == 0 {
        let k = choose|k: int| 0 <= k < left.len() && left[k] == m;
        assert(whole[k] == m);
    } else {
        assert(dirs.drop_first()[j - 1] == dirs[j]);
        lemma_slider_moves_build(b, p, from, dirs.drop_first(), j - 1, m);
        let rest = slider_moves_dirs(b, p, from, dirs.drop_first());
        let k = choose|k: int| 0 <= k < rest.len() && rest[k] == m;
        assert(whole[left.len() + k] == m);
    }
}

/// Some piece of `by` standing on `from` has a pseudo-legal capture of `t`.
pub open spec fn spec_some_capture_of(
    b: Seq<Option<Piece>>,
    by: Color,
    t: HexCoord,
) -> bool {
    exists|from: HexCoord|
        {
            &&& #[trigger] at_coord(b, from) is Some
            &&& at_coord(b, from)->Some_0.color == by
            &&& exists|i: int|
                0 <= i < spec_pseudo_moves(b, at_coord(b, from)->Some_0, from).len() && (
                #[trigger] spec_pseudo_moves(b, at_coord(b, from)->Some_0, from)[i]).to == t
                    && spec_pseudo_moves(b, at_coord(b, from)->Some_0, from)[i].captured is Some
        }
}

/// Attack detection matches move generation, converse direction: when a
/// cell holding a piece of the other color reads as attacked by `by`, some
/// piece of `by` has a pseudo-legal capture of that cell.
#[verifier::rlimit(100)]
pub proof fn lemma_attacked_implies_capture(b: Seq<Option<Piece>>, t: HexCoord, by: Color)
    requires
        b.len() == 81,
        spec_valid_cell(t.q as int, t.r as int),
        spec_attacked(b, t, by),
        at_coord(b, t) is Some,
        at_coord(b, t)->Some_0.color != by,
    ensures
        spec_some_capture_of(b, by, t),
{
    if pawn_attack_dirs(b, t, by, spec_pawn_capture_directions(by)) {
        lemma_pawn_attack_dirs_extract(b, t, by, spec_pawn_capture_directions(by));
        let j = choose|j: int|
            0 <= j < spec_pawn_capture_directions(by).len() && pawn_attack_in_dir(
                b,
                t,
                by,
                #[trigger] spec_pawn_capture_directions(by)[j],
            );
        let d = spec_pawn_capture_directions(by)[j];
        let a = spec_neighbor(t, spec_opposite(d))->Some_0;
        let p = at_coord(b, a)->Some_0;
        lemma_opposite_delta(d);
        assert(spec_neighbor(a, d) == Some(t));
        assert(spec_has_enemy(b, t, p.color));
        let caps = pawn_capture_in_dir(b, p, a, d);
        assert(caps.len() > 0 && caps[0].to == t && caps[0].captured == at_coord(b, t)) by {
            let base = Move { from: a, to: t, piece: p, captured: at_coord(b, t), promotion: None };
            if spec_promotion_zone(t, p.color) {
                assert(caps[0] == (Move { promotion: Some(spec_promotion_targets()[0]), ..base }));
            } else {
                assert(caps[0] == base);
            }
        }
        assert(caps.contains(caps[0]));
        lemma_pawn_captures_build(b, p, a, spec_pawn_capture_directions(by), j, caps[0]);
        let whole = spec_pawn_moves(b, p, a);
        let capsall = pawn_captures_dirs(b, p, a, spec_pawn_capture_directions(p.color));
        let kk = choose|kk: int| 0 <= kk < capsall.len() && capsall[kk] == caps[0];
        assert(whole[pawn_forward_moves(b, p, a).len() + kk] == caps[0]);
        assert(spec_some_capture_of(b, by, t)) by {
            let i = pawn_forward_moves(b, p, a).len() as int + kk;
            assert(at_coord(b, a) is Some);
            assert(spec_pseudo_moves(b, at_coord(b, a)->Some_0, a)[i].to == t
                && spec_pseudo_moves(b, at_coord(b, a)->Some_0, a)[i].captured is Some);
        }
    } else if king_attack_dirs(b, t, by, spec_all_directions()) {
        lemma_king_attack_dirs_extract(b, t, by, spec_all_directions());
        let j = choose|j: int|
            0 <= j < spec_all_directions().len() && king_attack_in_dir(
                b,
                t,
                by,
                #[trigger] spec_all_directions()[j],
            );
        let d = spec_all_directions()[j];
        let a = spec_neighbor(t, d)->Some_0;
        let p = at_coord(b, a)->Some_0;
        lemma_opposite_delta(d);
        assert(spec_neighbor(a, spec_opposite(d)) == Some(t));
        let m = Move { from: a, to: t, piece: p, captured: at_coord(b, t), promotion: None };
        assert(king_move_in_dir(b, p, a, spec_opposite(d)).contains(m)) by {
            assert(!spec_has_friendly(b, t, p.color));
            assert(king_move_in_dir(b, p, a, spec_opposite(d))[0] == m);
        }
        lemma_all_directions_complete(spec_opposite(d));
        let jj = choose|jj: int|
            0 <= jj < 6 && #[trigger] spec_all_directions()[jj] == spec_opposite(d);
        lemma_king_moves_build(b, p, a, spec_all_directions(), jj, m);
        let whole = spec_king_moves(b, p, a);
        let kk = choose|kk: int| 0 <= kk < whole.len() && whole[kk] == m;
        assert(spec_some_capture_of(b, by, t)) by {
            assert(at_coord(b, a) is Some);
            assert(spec_pseudo_moves(b, at_coord(b, a)->Some_0, a)[kk].to == t
                && spec_pseudo_moves(b, at_coord(b, a)->Some_0, a)[kk].captured is Some);
        }
    } else if knight_attack_cells(b, by, spec_knight_targets(t)) {
        lemma_knight_attack_cells_extract(b, by, spec_knight_targets(t));
        let j = choose|j: int|
            {
                &&& 0 <= j < spec_knight_targets(t).len()
                &&& at_coord(b, #[trigger] spec_knight_targets(t)[j]) is Some
                &&& at_coord(b, spec_knight_targets(t)[j])->Some_0.piece_type == PieceType::Knight
                &&& at_coord(b, spec_knight_targets(t)[j])->Some_0.color == by
            };
        let a = spec_knight_targets(t)[j];
        let p = at_coord(b, a)->Some_0;
        lemma_knight_reverse(b, p, t, a);
        let jj = choose|jj: int|
            0 <= jj < spec_knight_targets(a).len() && #[trigger] spec_knight_targets(a)[jj] == t;
        assert(!spec_has_friendly(b, t, p.color));
        lemma_knight_moves_build(b, p, a, spec_knight_targets(a), jj);
        let m = Move { from: a, to: t, piece: p, captured: at_coord(b, t), promotion: None };
        let whole = spec_knight_moves(b, p, a);
        let kk = choose|kk: int| 0 <= kk < whole.len() && whole[kk] == m;
        assert(spec_some_capture_of(b, by, t)) by {
            assert(at_coord(b, a) is Some);
            assert(spec_pseudo_moves(b, at_coord(b, a)->Some_0, a)[kk].to == t
                && spec_pseudo_moves(b, at_coord(b, a)->Some_0, a)[kk].captured is Some);
        }
    } else {
        lemma_slider_attack_dirs_extract(b, t, by, spec_all_directions());
        let j = choose|j: int|
            0 <= j < spec_all_directions().len() && ray_attack(
                b,
                by,
                #[trigger] spec_all_directions()[j],
                spec_ray(t, spec_all_directions()[j]),
            );
        let d = spec_all_directions()[j];
        let ray1 = spec_ray(t, d);
        lemma_ray_attack_extract(b, by, d, ray1);
        let k = choose|k: int|
            {
                &&& 0 <= k < ray1.len()
                &&& at_coord(b, #[trigger] ray1[k]) is Some
                &&& at_coord(b, ray1[k])->Some_0.color == by
                &&& spec_is_slider(at_coord(b, ray1[k])->Some_0)
                &&& spec_piece_directions(at_coord(b, ray1[k])->Some_0).contains(spec_opposite(d))
                &&& forall|j2: int| 0 <= j2 < k ==> at_coord(b, #[trigger] ray1[j2]) is None
            };
        let a = ray1[k];
        let p = at_coord(b, a)->Some_0;
        let rd = spec_opposite(d);
        crate::hex::lemma_ray_on_line(t, d);
        lemma_opposite_delta(d);
        // The return ray from the attacker reaches the target.
        assert forall|i: int| 1 <= i <= k + 1 implies spec_valid_cell(
            a.q + #[trigger] (i * dir_dq(rd)),
            a.r + i * dir_dr(rd),
        ) by {
            assert(a.q == t.q + (k + 1) * dir_dq(d) && a.r == t.r + (k + 1) * dir_dr(d));
            assert(a.q + i * dir_dq(rd) == t.q + (k + 1 - i) * dir_dq(d) && a.r + i * dir_dr(rd)
                == t.r + (k + 1 - i) * dir_dr(d)) by (nonlinear_arith)
                requires
                    dir_dq(rd) == -dir_dq(d),
                    dir_dr(rd) == -dir_dr(d),
                    a.q == t.q + (k + 1) * dir_dq(d),
                    a.r == t.r + (k + 1) * dir_dr(d),
            {}
            if i == k + 1 {
                assert(t.q + 0 * dir_dq(d) == t.q && t.r + 0 * dir_dr(d) == t.r)
                    by (nonlinear_arith)
                {}
            } else {
                let j2 = k - i;
                assert(ray1[j2].q == t.q + (j2 + 1) * dir_dq(d) && ray1[j2].r == t.r + (j2 + 1)
                    * dir_dr(d));
                assert(spec_valid_cell(ray1[j2].q as int, ray1[j2].r as int));
            }
        }
        lemma_ray_reaches(a, rd, k + 1);
        let ray2 = spec_ray(a, rd);
        crate::hex::lemma_ray_on_line(a, rd);
        assert forall|i: int| 0 <= i < k implies at_coord(b, #[trigger] ray2[i]) is None by {
            let j2 = k - 1 - i;
            assert(ray2[i].q == a.q + (i + 1) * dir_dq(rd) && ray2[i].r == a.r + (i + 1) * dir_dr(
                rd,
            ));
            assert(ray2[i].q == ray1[j2].q && ray2[i].r == ray1[j2].r) by (nonlinear_arith)
                requires
                    dir_dq(rd) == -dir_dq(d),
                    dir_dr(rd) == -dir_dr(d),
                    a.q == t.q + (k + 1) * dir_dq(d),
                    a.r == t.r + (k + 1) * dir_dr(d),
                    ray2[i].q == a.q + (i + 1) * dir_dq(rd),
                    ray2[i].r == a.r + (i + 1) * dir_dr(rd),
                    ray1[j2].q == t.q + (j2 + 1) * dir_dq(d),
                    ray1[j2].r == t.r + (j2 + 1) * dir_dr(d),
                    j2 == k - 1 - i,
            {}
            assert(ray2[i] == ray1[j2]);
        }
        assert(ray2[k] == t) by {
            assert(ray2[k].q == a.q + (k + 1) * dir_dq(rd) && ray2[k].r == a.r + (k + 1) * dir_dr(
                rd,
            ));
            assert(ray2[k].q == t.q && ray2[k].r == t.r) by (nonlinear_arith)
                requires
                    dir_dq(rd) == -dir_dq(d),
                    dir_dr(rd) == -dir_dr(d),
                    a.q == t.q + (k + 1) * dir_dq(d),
                    a.r == t.r + (k + 1) * dir_dr(d),
                    ray2[k].q == a.q + (k + 1) * dir_dq(rd),
                    ray2[k].r == a.r + (k + 1) * dir_dr(rd),
            {}
        }
        lemma_slide_along_build(b, p, a, ray2, k);
        let m = Move { from: a, to: t, piece: p, captured: at_coord(b, t), promotion: None };
        let jd = choose|jd: int|
            0 <= jd < spec_piece_directions(p).len() && spec_piece_directions(p)[jd] == rd;
        lemma_slider_moves_build(b, p, a, spec_piece_directions(p), jd, m);
        let whole = spec_slider_moves(b, p, a);
        let kk = choose|kk: int| 0 <= kk < whole.len() && whole[kk] == m;
        assert(spec_pseudo_moves(b, p, a) == whole) by {
            assert(spec_is_slider(p));
        }
        assert(spec_some_capture_of(b, by, t)) by {
            assert(at_coord(b, a) is Some);
            assert(spec_pseudo_moves(b, at_coord(b, a)->Some_0, a)[kk].to == t
                && spec_pseudo_moves(b, at_coord(b, a)->Some_0, a)[kk].captured is Some);
        }
    }
}

} // verus!
