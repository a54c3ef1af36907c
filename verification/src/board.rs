//! Board state: a fixed 81-slot grid covering the 9 x 9 coordinate box, of
//! which the 61 valid cells may hold a piece. Cells are addressed by
//! coordinate or by canonical "q,r" string key.

use vstd::prelude::*;

use crate::hex::HexCoord;
use crate::keys::spec_from_key;
use crate::piece::Piece;
use crate::piece::piece_wf;

verus! {

/// Grid slot of a coordinate inside the 9 x 9 box.
pub open spec fn slot_of(q: int, r: int) -> int {
    (q + 4) * 9 + (r + 4)
}

/// The q coordinate of a grid slot.
pub open spec fn slot_q(i: int) -> int {
    i / 9 - 4
}

/// The r coordinate of a grid slot.
pub open spec fn slot_r(i: int) -> int {
    i % 9 - 4
}

/// The piece on a cell of the board view, None off the 9 x 9 box.
pub open spec fn board_at(b: Seq<Option<Piece>>, q: int, r: int) -> Option<Piece> {
    if -4 <= q <= 4 && -4 <= r <= 4 {
        b[slot_of(q, r)]
    } else {
        None
    }
}

/// A well-formed board: 81 slots, and every stored piece well formed (a
/// variant only on lances).
pub open spec fn board_wf(b: Seq<Option<Piece>>) -> bool {
    &&& b.len() == 81
    &&& forall|i: int| 0 <= i < 81 && (#[trigger] b[i]) is Some ==> piece_wf(b[i]->Some_0)
}

/// Number of pieces on the board.
pub open spec fn count_pieces(b: Seq<Option<Piece>>) -> int
    decreases b.len(),
{
    if b.len() == 0 {
        0
    } else {
        count_pieces(b.drop_last()) + (if b.last() is Some {
            1int
        } else {
            0int
        })
    }
}

/// Slots are a bijection between the 9 x 9 box and 0..81.
pub proof fn lemma_slot_bijection()
    ensures
        forall|q: int, r: int|
            -4 <= q <= 4 && -4 <= r <= 4 ==> 0 <= #[trigger] slot_of(q, r) < 81 && slot_q(
                slot_of(q, r),
            ) == q && slot_r(slot_of(q, r)) == r,
{
    assert forall|q: int, r: int| -4 <= q <= 4 && -4 <= r <= 4 implies 0 <= #[trigger] slot_of(
        q,
        r,
    ) < 81 && slot_q(slot_of(q, r)) == q && slot_r(slot_of(q, r)) == r by {
        assert(slot_of(q, r) == (q + 4) * 9 + (r + 4));
        assert(0 <= (q + 4) * 9 + (r + 4) < 81) by (nonlinear_arith)
            requires
                0 <= q + 4 <= 8 && 0 <= r + 4 <= 8,
        {}
        assert(((q + 4) * 9 + (r + 4)) / 9 == q + 4 && ((q + 4) * 9 + (r + 4)) % 9 == r + 4)
            by (nonlinear_arith)
            requires
                0 <= q + 4 <= 8 && 0 <= r + 4 <= 8,
        {}
    }
}

proof fn lemma_count_prefix_update(b: Seq<Option<Piece>>, i: int, v: Option<Piece>)
    requires
        0 <= i < b.len(),
    ensures
        count_pieces(b.update(i, v)) == count_pieces(b) - (if b[i] is Some {
            1int
        } else {
            0int
        }) + (if v is Some {
            1int
        } else {
            0int
        }),
    decreases b.len(),
{
    let u = b.update(i, v);
    if i == b.len() - 1 {
        assert(u.drop_last() =~= b.drop_last());
        assert(u.last() == v);
    } else {
        assert(u.drop_last() =~= b.drop_last().update(i, v));
        assert(u.last() == b.last());
        lemma_count_prefix_update(b.drop_last(), i, v);
    }
}

/// Updating one slot changes the piece count by the difference of the old
/// and new occupancy.
pub proof fn lemma_count_pieces_update(b: Seq<Option<Piece>>, i: int, v: Option<Piece>)
    requires
        0 <= i < b.len(),
    ensures
        count_pieces(b.update(i, v)) == count_pieces(b) - (if b[i] is Some {
            1int
        } else {
            0int
        }) + (if v is Some {
            1int
        } else {
            0int
        }),
{
    lemma_count_prefix_update(b, i, v);
}

/// Board state: a map from cells to pieces, stored as an 81-slot grid.
#[derive(Debug, Clone)]
pub struct BoardState {
    cells: Vec<Option<Piece>>,
}

impl View for BoardState {
    type V = Seq<Option<Piece>>;

    closed spec fn view(&self) -> Seq<Option<Piece>> {
        self.cells@
    }
}

impl BoardState {
    /// An empty board.
    pub fn new() -> (b: BoardState)
        ensures
            board_wf(b@),
            count_pieces(b@) == 0,
            forall|i: int| 0 <= i < 81 ==> (#[trigger] b@[i]) is None,
    {
        let mut cells: Vec<Option<Piece>> = Vec::new();
        let mut i: usize = 0;
        while i < 81
            invariant
                i <= 81,
                cells@.len() == i,
                forall|j: int| 0 <= j < i ==> (#[trigger] cells@[j]) is None,
            decreases 81 - i,
        {
            cells.push(None);
            i = i + 1;
        }
        let b = BoardState { cells };
        proof {
            lemma_count_none(b@);
        }
        b
    }

    /// The piece on a cell, or None.
    pub fn piece_at(&self, coord: HexCoord) -> (p: Option<Piece>)
        requires
            board_wf(self@),
        ensures
            p == board_at(self@, coord.q as int, coord.r as int),
    {
        if coord.q < -4 || coord.q > 4 || coord.r < -4 || coord.r > 4 {
            return None;
        }
        let idx: usize = ((coord.q + 4) * 9 + (coord.r + 4)) as usize;
        self.cells[idx]
    }

    /// Put a piece on a cell of the box, replacing whatever was there.
    pub fn place(&mut self, coord: HexCoord, piece: Piece)
        requires
            board_wf(old(self)@),
            crate::hex::cell_in_box(coord),
            piece_wf(piece),
        ensures
            board_wf(final(self)@),
            final(self)@ == old(self)@.update(
                slot_of(coord.q as int, coord.r as int),
                Some(piece),
            ),
    {
        proof {
            lemma_slot_bijection();
        }
        let idx: usize = ((coord.q + 4) * 9 + (coord.r + 4)) as usize;
        self.cells.set(idx, Some(piece));
    }

    /// Empty a valid cell.
    pub fn clear_cell(&mut self, coord: HexCoord)
        requires
            board_wf(old(self)@),
            -4 <= coord.q <= 4,
            -4 <= coord.r <= 4,
        ensures
            board_wf(final(self)@),
            final(self)@ == old(self)@.update(slot_of(coord.q as int, coord.r as int), None),
    {
        proof {
            lemma_slot_bijection();
        }
        let idx: usize = ((coord.q + 4) * 9 + (coord.r + 4)) as usize;
        self.cells.set(idx, None);
    }

    /// Set a valid cell to a piece or to empty. The stored piece must be
    /// well formed.
    pub fn set_cell(&mut self, coord: HexCoord, p: Option<Piece>)
        requires
            board_wf(old(self)@),
            crate::hex::cell_in_box(coord),
            match p {
                Some(piece) => piece_wf(piece),
                None => true,
            },
        ensures
            board_wf(final(self)@),
            final(self)@ == old(self)@.update(slot_of(coord.q as int, coord.r as int), p),
    {
        proof {
            lemma_slot_bijection();
        }
        let idx: usize = ((coord.q + 4) * 9 + (coord.r + 4)) as usize;
        self.cells.set(idx, p);
    }

    /// An exact copy of this board.
    pub fn clone_board(&self) -> (b: BoardState)
        ensures
            b@ == self@,
    {
        let mut cells: Vec<Option<Piece>> = Vec::new();
        let mut i: usize = 0;
        let n: usize = self.cells.len();
        while i < n
            invariant
                i <= n == self.cells.len(),
                cells@ =~= self.cells@.subrange(0, i as int),
            decreases n - i,
        {
            cells.push(self.cells[i]);
            i = i + 1;
        }
        proof {
            assert(cells@ =~= self.cells@);
        }
        BoardState { cells }
    }

    /// Insert a piece under its "q,r" string key. The key must name a valid
    /// cell and the piece must be well formed.
    pub fn insert(&mut self, key: String, piece: Piece)
        requires
            board_wf(old(self)@),
            piece_wf(piece),
            match spec_from_key(key@) {
                Some(c) => crate::hex::cell_in_box(c),
                None => false,
            },
        ensures
            board_wf(final(self)@),
            final(self)@ == old(self)@.update(
                slot_of(
                    spec_from_key(key@)->Some_0.q as int,
                    spec_from_key(key@)->Some_0.r as int,
                ),
                Some(piece),
            ),
    {
        let coord = HexCoord::from_key(key.as_str());
        match coord {
            Some(c) => self.place(c, piece),
            None => proof {
                assert(false);
            },
        }
    }

    /// Look a piece up under a "q,r" string key; None for keys that do not
    /// parse, cells off the board, and empty cells.
    pub fn get(&self, key: &str) -> (p: Option<Piece>)
        requires
            board_wf(self@),
        ensures
            p == match spec_from_key(key@) {
                Some(c) => board_at(self@, c.q as int, c.r as int),
                None => None::<Piece>,
            },
    {
        match HexCoord::from_key(key) {
            Some(c) => self.piece_at(c),
            None => None,
        }
    }

    /// Number of pieces on the board.
    pub fn len(&self) -> (n: usize)
        requires
            board_wf(self@),
        ensures
            n == count_pieces(self@),
    {
        let mut n: usize = 0;
        let mut i: usize = 0;
        while i < 81
            invariant
                board_wf(self@),
                i <= 81,
                n <= i,
                n == count_pieces(self@.subrange(0, i as int)),
            decreases 81 - i,
        {
            proof {
                assert(self@.subrange(0, i + 1 as int).drop_last() =~= self@.subrange(0, i as int));
            }
            if self.cells[i].is_some() {
                n = n + 1;
            }
            i = i + 1;
        }
        proof {
            assert(self@.subrange(0, 81) =~= self@);
        }
        n
    }
}

proof fn lemma_count_none(b: Seq<Option<Piece>>)
    requires
        forall|i: int| 0 <= i < b.len() ==> (#[trigger] b[i]) is None,
    ensures
        count_pieces(b) == 0,
    decreases b.len(),
{
    if b.len() > 0 {
        lemma_count_none(b.drop_last());
    }
}

} // verus!
