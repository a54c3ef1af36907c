//! Piece model: colors, piece classes, the two lance variants, direction
//! tables for sliders, and material values.

use vstd::prelude::*;

use crate::hex::Direction;
use crate::hex::HexCoord;
use crate::hex::spec_all_directions;
use crate::hex::spec_diagonals;
use crate::hex::spec_lance_a_directions;
use crate::hex::spec_lance_b_directions;

verus! {

#[derive(Debug, Clone, Copy, PartialEq, Eq, Hash, Structural)]
pub enum PieceType {
    Pawn,
    King,
    Queen,
    Knight,
    Lance,
    Chariot,
}

#[derive(Debug, Clone, Copy, PartialEq, Eq, Hash, Structural)]
pub enum Color {
    White,
    Black,
}

/// The other color.
pub open spec fn spec_opposite_color(c: Color) -> Color {
    match c {
        Color::White => Color::Black,
        Color::Black => Color::White,
    }
}

impl Color {
    pub fn opposite(&self) -> (o: Color)
        ensures
            o == spec_opposite_color(*self),
    {
        match self {
            Color::White => Color::Black,
            Color::Black => Color::White,
        }
    }
}

#[derive(Debug, Clone, Copy, PartialEq, Eq, Hash, Structural)]
pub enum LanceVariant {
    A,
    B,
}

#[derive(Debug, Clone, Copy, PartialEq, Eq, Hash)]
pub struct Piece {
    pub piece_type: PieceType,
    pub color: Color,
    /// Present exactly when the piece is a lance.
    pub variant: Option<LanceVariant>,
}

/// Only lances carry a variant. Constructed lances always carry one; a pawn
/// promoted to a lance has none and moves as a B-variant lance.
pub open spec fn piece_wf(p: Piece) -> bool {
    (p.variant is Some) ==> p.piece_type == PieceType::Lance
}

/// Direction set of a piece's movement class: all six for the queen, the
/// diagonals for the chariot, the variant table for a lance, and empty for
/// pawn, knight, and king, which do not slide.
pub open spec fn spec_piece_directions(p: Piece) -> Seq<Direction> {
    match p.piece_type {
        PieceType::Queen => spec_all_directions(),
        PieceType::Chariot => spec_diagonals(),
        PieceType::Lance => if p.variant == Some(LanceVariant::A) {
            spec_lance_a_directions()
        } else {
            spec_lance_b_directions()
        },
        _ => Seq::empty(),
    }
}

/// Sliders are queen, lance, and chariot.
pub open spec fn spec_is_slider(p: Piece) -> bool {
    p.piece_type == PieceType::Queen || p.piece_type == PieceType::Lance || p.piece_type
        == PieceType::Chariot
}

impl Piece {
    /// Build a non-lance piece; lances carry a variant and are built with
    /// `Piece::lance`.
    pub fn new(piece_type: PieceType, color: Color) -> (p: Self)
        requires
            piece_type != PieceType::Lance,
        ensures
            p.piece_type == piece_type,
            p.color == color,
            p.variant is None,
            piece_wf(p),
    {
        Self { piece_type, color, variant: None }
    }

    /// Build a lance of the given variant.
    pub fn lance(color: Color, variant: LanceVariant) -> (p: Self)
        ensures
            p.piece_type == PieceType::Lance,
            p.color == color,
            p.variant == Some(variant),
            piece_wf(p),
    {
        Self { piece_type: PieceType::Lance, color, variant: Some(variant) }
    }

    /// Directions this piece's movement class slides in; empty for the
    /// pieces that do not slide.
    pub fn directions(&self) -> (v: Vec<Direction>)
        ensures
            v@ == spec_piece_directions(*self),
    {
        match self.piece_type {
            PieceType::Queen => Direction::all(),
            PieceType::Chariot => Direction::diagonals(),
            PieceType::Lance => match self.variant {
                Some(LanceVariant::A) => Direction::lance_a(),
                _ => Direction::lance_b(),
            },
            _ => {
                let v: Vec<Direction> = Vec::new();
                assert(v@ =~= Seq::<Direction>::empty());
                v
            },
        }
    }

    /// Whether the piece slides over multiple cells.
    pub fn is_slider(&self) -> (r: bool)
        ensures
            r == spec_is_slider(*self),
    {
        match self.piece_type {
            PieceType::Queen | PieceType::Lance | PieceType::Chariot => true,
            _ => false,
        }
    }
}

/// Material value of each piece class, in centipawns.
pub open spec fn spec_piece_value(pt: PieceType) -> int {
    match pt {
        PieceType::Pawn => 100,
        PieceType::Knight => 300,
        PieceType::Lance => 450,
        PieceType::Chariot => 450,
        PieceType::Queen => 900,
        PieceType::King => 0,
    }
}

/// Get a piece's material value in centipawns.
pub fn get_piece_value(piece_type: PieceType) -> (v: i32)
    ensures
        v == spec_piece_value(piece_type),
{
    match piece_type {
        PieceType::Pawn => 100,
        PieceType::Knight => 300,
        PieceType::Lance => 450,
        PieceType::Chariot => 450,
        PieceType::Queen => 900,
        PieceType::King => 0,
    }
}

/// Promotion targets for pawns, in listing order.
pub open spec fn spec_promotion_targets() -> Seq<PieceType> {
    seq![PieceType::Queen, PieceType::Chariot, PieceType::Lance, PieceType::Knight]
}

/// Valid promotion targets for pawns.
pub fn promotion_targets() -> (v: Vec<PieceType>)
    ensures
        v@ == spec_promotion_targets(),
{
    let v = vec![PieceType::Queen, PieceType::Chariot, PieceType::Lance, PieceType::Knight];
    assert(v@ =~= spec_promotion_targets());
    v
}

/// The promotion rank: r = -4 for White, r = 4 for Black.
pub open spec fn spec_promotion_zone(c: HexCoord, color: Color) -> bool {
    match color {
        Color::White => c.r == -4,
        Color::Black => c.r == 4,
    }
}

/// Check whether a coordinate is in the promotion zone for a color.
pub fn is_promotion_zone(coord: HexCoord, color: Color) -> (r: bool)
    ensures
        r == spec_promotion_zone(coord, color),
{
    match color {
        Color::White => coord.r == -4,
        Color::Black => coord.r == 4,
    }
}

} // verus!
