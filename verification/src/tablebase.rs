//! Endgame tablebases: configuration detection, position enumeration,
//! retrograde analysis, and probing, for king-and-one-piece endings on the
//! 61-cell board.

use vstd::prelude::*;
use vstd::relations::sorted_by;
use vstd::relations::total_ordering;
use vstd::seq_lib::lemma_multiset_commutative;
use vstd::seq_lib::lemma_sorted_unique;
use vstd::string::StrSliceExecFns;
use vstd::string::StringExecFns;

use crate::board::BoardState;
use crate::board::board_wf;
use crate::board::count_pieces;
use crate::board::slot_q;
use crate::board::slot_r;
use crate::clock::elapsed_ms;
use crate::clock::instant_now;
use crate::clock::utc_now_rfc3339;
use crate::fingerprint::spec_fingerprint;
use crate::fingerprint::fingerprint;
use crate::hex::HexCoord;
use crate::hex::cell_at_ord;
use crate::hex::cell_ord;
use crate::hex::lemma_cell_ord_bijection;
use crate::hex::spec_valid_cell;
use crate::moves::Move;
use crate::piece::Color;
use crate::piece::LanceVariant;
use crate::piece::Piece;
use crate::piece::PieceType;

verus! {

broadcast use
    vstd::seq_lib::group_to_multiset_ensures,
    vstd::multiset::group_multiset_axioms,
    lemma_multiset_commutative,
;

/// Win/draw/loss verdict from the perspective of the side to move.
#[derive(Debug, Clone, Copy, PartialEq, Eq, Structural)]
pub enum WDLOutcome {
    Win,
    Draw,
    Loss,
}

/// Compact move stored in tablebase entries.
#[derive(Debug, Clone, Copy, PartialEq, Eq)]
pub struct SerializedMove {
    pub from_q: i32,
    pub from_r: i32,
    pub to_q: i32,
    pub to_r: i32,
    pub promotion: Option<PieceType>,
}

impl SerializedMove {
    pub fn from_move(mv: &Move) -> (s: Self)
        ensures
            s.from_q == mv.from.q,
            s.from_r == mv.from.r,
            s.to_q == mv.to.q,
            s.to_r == mv.to.r,
            s.promotion == mv.promotion,
    {
        Self {
            from_q: mv.from.q,
            from_r: mv.from.r,
            to_q: mv.to.q,
            to_r: mv.to.r,
            promotion: mv.promotion,
        }
    }
}

/// Entry for one position: the verdict, the distance to mate in plies (0 at
/// mate on the board, -1 for draws), and a best move for winning positions.
#[derive(Debug, Clone, Copy, PartialEq, Eq)]
pub struct TablebaseEntry {
    pub wdl: WDLOutcome,
    pub dtm: i32,
    pub best_move: Option<SerializedMove>,
}

/// Generation metadata: counts and timing.
#[derive(Debug, Clone)]
pub struct TablebaseMetadata {
    pub generated_at: String,
    pub generation_time_ms: u64,
    pub win_count: usize,
    pub draw_count: usize,
    pub loss_count: usize,
}

/// The supported piece configurations: a stronger side with a few non-king
/// pieces against a lone king.
#[derive(Debug, Clone)]
pub struct TablebaseConfig {
    pub stronger_side: Vec<PieceType>,
    pub weaker_side: Vec<PieceType>,
    pub name: String,
}

/// A generated tablebase: the verdict for every reachable position of one
/// configuration, indexed by king cells, piece placement, and side to move.
#[derive(Debug, Clone)]
pub struct PieceTablebase {
    pub name: String,
    pub description: String,
    /// The stronger side's single extra piece class, None for bare kings.
    pub piece_kind: Option<PieceType>,
    /// Entry per position index; None for indices that are not legal
    /// positions of the configuration.
    pub entries: Vec<Option<TablebaseEntry>>,
    pub size: usize,
    pub metadata: TablebaseMetadata,
}

/// Result of a tablebase probe.
#[derive(Debug, Clone)]
pub struct TablebaseProbeResult {
    pub found: bool,
    pub entry: Option<TablebaseEntry>,
    pub tablebase_name: Option<String>,
}

/// The process-wide set of loaded tablebases, keyed by configuration name.
#[derive(Debug)]
pub struct TablebaseRegistry {
    pub items: Vec<PieceTablebase>,
}

/// Compare two strings for equality of their character sequences.
fn str_eq(a: &str, b: &str) -> (r: bool)
    ensures
        r == (a@ == b@),
{
    let alen = a.unicode_len();
    let blen = b.unicode_len();
    if alen != blen {
        proof {
            assert(a@ != b@) by {
                assert(a@.len() != b@.len());
            }
        }
        return false;
    }
    let mut i: usize = 0;
    while i < alen
        invariant
            i <= alen == a@.len(),
            alen == b@.len(),
            forall|j: int| 0 <= j < i ==> a@[j] == b@[j],
        decreases alen - i,
    {
        if a.get_char(i) != b.get_char(i) {
            return false;
        }
        i = i + 1;
    }
    proof {
        assert(a@ =~= b@);
    }
    true
}

/// Index of the first registry item with the given name.
pub open spec fn reg_lookup(items: Seq<PieceTablebase>, name: Seq<char>, i: int) -> Option<int>
    decreases items.len() - i,
{
    if i < 0 || i >= items.len() {
        None
    } else if items[i].name@ == name {
        Some(i)
    } else {
        reg_lookup(items, name, i + 1)
    }
}

impl TablebaseRegistry {
    /// An empty registry.
    pub fn new() -> (r: TablebaseRegistry)
        ensures
            r.items@.len() == 0,
    {
        TablebaseRegistry { items: Vec::new() }
    }
}

/// Get a loaded tablebase by configuration name.
pub fn get_tablebase<'a>(registry: &'a TablebaseRegistry, name: &str) -> (r: Option<
    &'a PieceTablebase,
>)
    ensures
        match r {
            Some(tb) => {
                let idx = reg_lookup(registry.items@, name@, 0);
                idx is Some && tb == &registry.items@[idx->Some_0]
            },
            None => reg_lookup(registry.items@, name@, 0) is None,
        },
{
    let n = registry.items.len();
    let mut i: usize = 0;
    while i < n
        invariant
            i <= n == registry.items@.len(),
            reg_lookup(registry.items@, name@, 0) == reg_lookup(registry.items@, name@, i as int),
        decreases n - i,
    {
        if str_eq(registry.items[i].name.as_str(), name) {
            return Some(&registry.items[i]);
        }
        i = i + 1;
    }
    None
}

/// Store a tablebase, replacing any loaded one of the same name.
pub fn set_tablebase(registry: &mut TablebaseRegistry, tablebase: PieceTablebase)
    ensures
        ({
            let idx = reg_lookup(old(registry).items@, tablebase.name@, 0);
            match idx {
                Some(i) => final(registry).items@ == old(registry).items@.update(i, tablebase),
                None => final(registry).items@ == old(registry).items@.push(tablebase),
            }
        }),
{
    let n = registry.items.len();
    let mut i: usize = 0;
    while i < n
        invariant
            i <= n == registry.items@.len(),
            registry.items@ == old(registry).items@,
            reg_lookup(registry.items@, tablebase.name@, 0) == reg_lookup(
                registry.items@,
                tablebase.name@,
                i as int,
            ),
        decreases n - i,
    {
        if str_eq(registry.items[i].name.as_str(), tablebase.name.as_str()) {
            registry.items.set(i, tablebase);
            return ;
        }
        i = i + 1;
    }
    registry.items.push(tablebase);
}

/// Names of all loaded tablebases, in load order.
pub fn get_loaded_tablebases(registry: &TablebaseRegistry) -> (names: Vec<String>)
    ensures
        names@.len() == registry.items@.len(),
        forall|i: int|
            0 <= i < names@.len() ==> (#[trigger] names@[i])@ == registry.items@[i].name@,
{
    let mut names: Vec<String> = Vec::new();
    let n = registry.items.len();
    let mut i: usize = 0;
    while i < n
        invariant
            i <= n == registry.items@.len(),
            names@.len() == i,
            forall|j: int|
                0 <= j < i ==> (#[trigger] names@[j])@ == registry.items@[j].name@,
        decreases n - i,
    {
        let name = registry.items[i].name.clone();
        names.push(name);
        i = i + 1;
    }
    names
}

/// Unload all tablebases.
pub fn clear_tablebases(registry: &mut TablebaseRegistry)
    ensures
        final(registry).items@.len() == 0,
{
    registry.items.clear();
}

// ============================================================================
// Configuration detection
// ============================================================================

/// One-letter abbreviation of a piece class for configuration names.
pub open spec fn spec_piece_abbrev(pt: PieceType) -> char {
    match pt {
        PieceType::Queen => 'Q',
        PieceType::Lance => 'L',
        PieceType::Chariot => 'C',
        PieceType::Knight => 'N',
        PieceType::Pawn => 'P',
        PieceType::King => 'K',
    }
}

/// Get the abbreviation of a piece class.
pub fn piece_abbrev(piece_type: PieceType) -> (s: &'static str)
    ensures
        s@ == seq![spec_piece_abbrev(piece_type)],
{
    proof {
        reveal_strlit("Q");
        reveal_strlit("L");
        reveal_strlit("C");
        reveal_strlit("N");
        reveal_strlit("P");
        reveal_strlit("K");
    }
    let s = match piece_type {
        PieceType::Queen => "Q",
        PieceType::Lance => "L",
        PieceType::Chariot => "C",
        PieceType::Knight => "N",
        PieceType::Pawn => "P",
        PieceType::King => "K",
    };
    proof {
        assert(s@ =~= seq![spec_piece_abbrev(piece_type)]);
    }
    s
}

/// Order on piece classes by abbreviation letter, ascending.
pub open spec fn abbrev_leq(a: PieceType, b: PieceType) -> bool {
    (spec_piece_abbrev(a) as u32) <= (spec_piece_abbrev(b) as u32)
}

/// The ordering as a first-class function.
pub open spec fn abbrev_leq_fn() -> spec_fn(PieceType, PieceType) -> bool {
    |a: PieceType, b: PieceType| abbrev_leq(a, b)
}

/// The abbreviation order is total.
pub proof fn lemma_abbrev_total_ordering()
    ensures
        total_ordering(abbrev_leq_fn()),
{
    let leq = abbrev_leq_fn();
    assert forall|a: PieceType, b: PieceType| #[trigger] leq(a, b) && #[trigger] leq(b, a)
        implies a == b by {
        assert((spec_piece_abbrev(a) as u32) == (spec_piece_abbrev(b) as u32));
    }
}

/// The non-king piece classes of one color, in grid-slot order.
pub open spec fn side_pieces_from(b: Seq<Option<Piece>>, color: Color, i: int) -> Seq<PieceType>
    decreases 81 - i,
{
    if i < 0 || i >= 81 || b.len() != 81 {
        Seq::empty()
    } else {
        (match b[i] {
            Some(p) => if p.color == color && p.piece_type != PieceType::King {
                seq![p.piece_type]
            } else {
                Seq::empty()
            },
            None => Seq::empty(),
        }) + side_pieces_from(b, color, i + 1)
    }
}

/// The non-king pieces of a color.
pub open spec fn spec_side_pieces(b: Seq<Option<Piece>>, color: Color) -> Seq<PieceType> {
    side_pieces_from(b, color, 0)
}

/// Whether White is the stronger side (more non-king pieces; ties go to
/// White).
pub open spec fn spec_stronger_is_white(b: Seq<Option<Piece>>) -> bool {
    spec_side_pieces(b, Color::White).len() >= spec_side_pieces(b, Color::Black).len()
}

/// The stronger side's non-king pieces, sorted by abbreviation.
pub open spec fn spec_stronger_sorted(b: Seq<Option<Piece>>) -> Seq<PieceType> {
    if spec_stronger_is_white(b) {
        spec_side_pieces(b, Color::White).sort_by(abbrev_leq_fn())
    } else {
        spec_side_pieces(b, Color::Black).sort_by(abbrev_leq_fn())
    }
}

/// The weaker side's non-king pieces, sorted by abbreviation.
pub open spec fn spec_weaker_sorted(b: Seq<Option<Piece>>) -> Seq<PieceType> {
    if spec_stronger_is_white(b) {
        spec_side_pieces(b, Color::Black).sort_by(abbrev_leq_fn())
    } else {
        spec_side_pieces(b, Color::White).sort_by(abbrev_leq_fn())
    }
}

/// Canonical configuration name: "K", the stronger abbreviations sorted
/// ascending, "vK", then the weaker abbreviations.
pub open spec fn spec_config_name(b: Seq<Option<Piece>>) -> Seq<char> {
    seq!['K'] + spec_stronger_sorted(b).map_values(|t: PieceType| spec_piece_abbrev(t)) + seq![
        'v',
        'K',
    ] + spec_weaker_sorted(b).map_values(|t: PieceType| spec_piece_abbrev(t))
}

/// A board's configuration is supported when it holds at most five pieces
/// in total and the weaker side has no piece besides its king.
pub open spec fn spec_config_supported(b: Seq<Option<Piece>>) -> bool {
    &&& count_pieces(b) <= 5
    &&& spec_weaker_sorted(b).len() == 0
}

/// Sort piece classes by abbreviation, ascending.
fn sort_by_abbrev(pieces: Vec<PieceType>) -> (r: Vec<PieceType>)
    ensures
        r@ == pieces@.sort_by(abbrev_leq_fn()),
{
    proof {
        lemma_abbrev_total_ordering();
    }
    let ghost input = pieces@;
    let mut out: Vec<PieceType> = Vec::new();
    let n = pieces.len();
    let mut i: usize = 0;
    proof {
        assert(input.subrange(0, 0) =~= Seq::<PieceType>::empty());
        assert(out@.to_multiset() =~= input.subrange(0, 0).to_multiset());
    }
    while i < n
        invariant
            i <= n == input.len(),
            pieces@ == input,
            out@.to_multiset() == input.subrange(0, i as int).to_multiset(),
            sorted_by(out@, abbrev_leq_fn()),
            total_ordering(abbrev_leq_fn()),
        decreases n - i,
    {
        let ghost old_out = out@;
        let x = pieces[i];
        let mut k: usize = 0;
        while k < out.len()
            invariant
                k <= out@.len(),
                out@ == old_out,
                forall|j: int| 0 <= j < k ==> abbrev_leq_fn()(#[trigger] old_out[j], x),
            decreases out.len() - k,
        {
            let cmp_le = abbrev_le(out[k], x);
            if !cmp_le {
                break;
            }
            k = k + 1;
        }
        out.insert(k, x);
        proof {
            let new_out = out@;
            assert(new_out =~= old_out.subrange(0, k as int).push(x) + old_out.subrange(
                k as int,
                old_out.len() as int,
            ));
            assert forall|a: int, c: int| 0 <= a < c < new_out.len() implies #[trigger]
                abbrev_leq_fn()(new_out[a], new_out[c]) by {
                let kk = k as int;
                if a < kk && c < kk {
                    assert(new_out[a] == old_out[a] && new_out[c] == old_out[c]);
                } else if a < kk && c == kk {
                    assert(new_out[a] == old_out[a] && new_out[c] == x);
                } else if a < kk && c > kk {
                    assert(new_out[a] == old_out[a] && new_out[c] == old_out[c - 1]);
                } else if a == kk && c > kk {
                    assert(new_out[a] == x && new_out[c] == old_out[c - 1]);
                    if kk < old_out.len() {
                        assert(!abbrev_leq_fn()(old_out[kk], x));
                        if c - 1 > kk {
                            assert(abbrev_leq_fn()(old_out[kk], old_out[c - 1]));
                        }
                    }
                } else if a > kk {
                    assert(new_out[a] == old_out[a - 1] && new_out[c] == old_out[c - 1]);
                }
            }
            let left = old_out.subrange(0, k as int);
            let right = old_out.subrange(k as int, old_out.len() as int);
            lemma_multiset_commutative(left.push(x), right);
            lemma_multiset_commutative(left, right);
            assert(left + right =~= old_out);
            assert(new_out.to_multiset() =~= old_out.to_multiset().insert(x));
            assert(input.subrange(0, i + 1 as int) =~= input.subrange(0, i as int).push(
                input[i as int],
            ));
        }
        i = i + 1;
    }
    proof {
        assert(input.subrange(0, n as int) =~= input);
        input.lemma_sort_by_ensures(abbrev_leq_fn());
        lemma_sorted_unique(out@, input.sort_by(abbrev_leq_fn()), abbrev_leq_fn());
    }
    out
}

/// Compare two piece classes by abbreviation.
fn abbrev_le(a: PieceType, b: PieceType) -> (r: bool)
    ensures
        r == abbrev_leq(a, b),
{
    let av = abbrev_code(a);
    let bv = abbrev_code(b);
    av <= bv
}

/// The abbreviation letter's code point.
fn abbrev_code(pt: PieceType) -> (v: u32)
    ensures
        v == spec_piece_abbrev(pt) as u32,
{
    match pt {
        PieceType::Queen => 'Q' as u32,
        PieceType::Lance => 'L' as u32,
        PieceType::Chariot => 'C' as u32,
        PieceType::Knight => 'N' as u32,
        PieceType::Pawn => 'P' as u32,
        PieceType::King => 'K' as u32,
    }
}

/// Collect the non-king pieces of one color.
fn collect_side_pieces(board: &BoardState, color: Color) -> (v: Vec<PieceType>)
    requires
        board_wf(board@),
    ensures
        v@ == spec_side_pieces(board@, color),
{
    let ghost b = board@;
    let mut v: Vec<PieceType> = Vec::new();
    let mut i: usize = 0;
    proof {
        assert(v@ + side_pieces_from(b, color, 0) =~= spec_side_pieces(b, color));
    }
    while i < 81
        invariant
            i <= 81,
            board_wf(b),
            v@ + side_pieces_from(b, color, i as int) == spec_side_pieces(b, color),
        decreases 81 - i,
    {
        let q: i32 = (i as i32) / 9 - 4;
        let r: i32 = (i as i32) % 9 - 4;
        let coord = HexCoord { q, r };
        proof {
            assert(q == slot_q(i as int) && r == slot_r(i as int));
            assert(crate::board::slot_of(slot_q(i as int), slot_r(i as int)) == i as int)
                by (nonlinear_arith)
                requires
                    0 <= i < 81,
            {}
        }
        if let Some(p) = board.piece_at(coord) {
            let take = match (p.piece_type, p.color, color) {
                (PieceType::King, _, _) => false,
                (_, Color::White, Color::White) => true,
                (_, Color::Black, Color::Black) => true,
                _ => false,
            };
            if take {
                let ghost before = v@;
                v.push(p.piece_type);
                proof {
                    assert(v@ =~= before.push(p.piece_type));
                    assert(v@ + side_pieces_from(b, color, i + 1 as int) =~= spec_side_pieces(
                        b,
                        color,
                    ));
                }
            } else {
                proof {
                    assert(v@ + side_pieces_from(b, color, i + 1 as int) =~= spec_side_pieces(
                        b,
                        color,
                    ));
                }
            }
        } else {
            proof {
                assert(v@ + side_pieces_from(b, color, i + 1 as int) =~= spec_side_pieces(
                    b,
                    color,
                ));
            }
        }
        i = i + 1;
    }
    proof {
        assert(v@ + Seq::<PieceType>::empty() =~= v@);
    }
    v
}

/// Detect the piece configuration of a position: the canonical name with
/// both sides sorted, or None when the position is outside the supported
/// scope (more than five pieces, or the weaker side keeps a piece).
pub fn detect_configuration(board: &BoardState) -> (r: Option<TablebaseConfig>)
    requires
        board_wf(board@),
    ensures
        match r {
            Some(config) => {
                &&& spec_config_supported(board@)
                &&& config.stronger_side@ == spec_stronger_sorted(board@)
                &&& config.weaker_side@ == spec_weaker_sorted(board@)
                &&& config.name@ == spec_config_name(board@)
            },
            None => !spec_config_supported(board@),
        },
{
    let white_pieces = collect_side_pieces(board, Color::White);
    let black_pieces = collect_side_pieces(board, Color::Black);
    let stronger_is_white = white_pieces.len() >= black_pieces.len();
    let (stronger, weaker) = if stronger_is_white {
        (white_pieces, black_pieces)
    } else {
        (black_pieces, white_pieces)
    };
    let stronger_sorted = sort_by_abbrev(stronger);
    let weaker_sorted = sort_by_abbrev(weaker);
    proof {
        let wl = spec_side_pieces(board@, Color::White);
        let bl = spec_side_pieces(board@, Color::Black);
        wl.lemma_sort_by_ensures(abbrev_leq_fn());
        bl.lemma_sort_by_ensures(abbrev_leq_fn());
        assert(wl.sort_by(abbrev_leq_fn()).len() == wl.len()) by {
            assert(wl.sort_by(abbrev_leq_fn()).to_multiset().len() == wl.to_multiset().len());
            assert(wl.to_multiset().len() == wl.len());
            assert(wl.sort_by(abbrev_leq_fn()).to_multiset().len() == wl.sort_by(
                abbrev_leq_fn(),
            ).len());
        }
        assert(bl.sort_by(abbrev_leq_fn()).len() == bl.len()) by {
            assert(bl.sort_by(abbrev_leq_fn()).to_multiset().len() == bl.to_multiset().len());
            assert(bl.to_multiset().len() == bl.len());
            assert(bl.sort_by(abbrev_leq_fn()).to_multiset().len() == bl.sort_by(
                abbrev_leq_fn(),
            ).len());
        }
    }
    if board.len() > 5 {
        return None;
    }
    if weaker_sorted.len() > 0 {
        return None;
    }
    // Build the canonical name.
    let mut name = String::new();
    name.append("K");
    let ghost strong_view = stronger_sorted@;
    let mut i: usize = 0;
    proof {
        reveal_strlit("K");
        assert(name@ =~= seq!['K'] + strong_view.subrange(0, 0).map_values(
            |t: PieceType| spec_piece_abbrev(t),
        ));
    }
    while i < stronger_sorted.len()
        invariant
            i <= strong_view.len() == stronger_sorted@.len(),
            stronger_sorted@ == strong_view,
            name@ == seq!['K'] + strong_view.subrange(0, i as int).map_values(
                |t: PieceType| spec_piece_abbrev(t),
            ),
        decreases stronger_sorted.len() - i,
    {
        let a = piece_abbrev(stronger_sorted[i]);
        name.append(a);
        proof {
            assert(name@ =~= seq!['K'] + strong_view.subrange(0, i + 1 as int).map_values(
                |t: PieceType| spec_piece_abbrev(t),
            )) by {
                assert(strong_view.subrange(0, i + 1 as int).map_values(
                    |t: PieceType| spec_piece_abbrev(t),
                ) =~= strong_view.subrange(0, i as int).map_values(
                    |t: PieceType| spec_piece_abbrev(t),
                ).push(spec_piece_abbrev(strong_view[i as int])));
            }
        }
        i = i + 1;
    }
    name.append("vK");
    proof {
        reveal_strlit("vK");
        assert(strong_view.subrange(0, strong_view.len() as int) =~= strong_view);
        assert(spec_weaker_sorted(board@).map_values(|t: PieceType| spec_piece_abbrev(t)) =~= Seq::<
            char,
        >::empty());
        assert(name@ =~= spec_config_name(board@));
    }
    Some(
        TablebaseConfig {
            stronger_side: stronger_sorted,
            weaker_side: weaker_sorted,
            name,
        },
    )
}

// ============================================================================
// Position indexing
// ============================================================================

/// Piece placement slots per position: none for bare kings, one per cell
/// for most pieces, two per cell (one per variant) for lances.
pub open spec fn spec_pslots(kind: Option<PieceType>) -> int {
    match kind {
        None => 1,
        Some(PieceType::Lance) => 122,
        Some(_) => 61,
    }
}

/// Index of a position inside a tablebase's entry array.
pub open spec fn spec_pos_index(wk: int, bk: int, p: int, pslots: int, stm: int) -> int {
    ((wk * 61 + bk) * pslots + p) * 2 + stm
}

/// The number of placement slots for a piece kind.
fn pslots_of(kind: Option<PieceType>) -> (n: usize)
    ensures
        n == spec_pslots(kind),
        1 <= n <= 122,
{
    match kind {
        None => 1,
        Some(PieceType::Lance) => 122,
        Some(_) => 61,
    }
}

/// Compute a position index, in bounds for the entry array.
fn pos_index(wk: usize, bk: usize, p: usize, pslots: usize, stm: usize) -> (i: usize)
    requires
        wk < 61,
        bk < 61,
        p < pslots,
        pslots <= 122,
        stm < 2,
    ensures
        i == spec_pos_index(wk as int, bk as int, p as int, pslots as int, stm as int),
        i < 61 * 61 * pslots * 2,
{
    proof {
        assert(((wk * 61 + bk) * pslots + p) * 2 + stm < 61 * 61 * pslots * 2)
            by (nonlinear_arith)
            requires
                wk < 61,
                bk < 61,
                p < pslots,
                1 <= pslots <= 122,
                stm < 2,
        {}
        assert(61 * 61 * pslots * 2 <= 61 * 61 * 122 * 2) by (nonlinear_arith)
            requires
                pslots <= 122,
        {}
    }
    ((wk * 61 + bk) * pslots + p) * 2 + stm
}

/// The valid cell with a given compact index.
fn cell_from_ord(i: usize) -> (c: HexCoord)
    requires
        i < 61,
    ensures
        c == cell_at_ord(i as int),
        spec_valid_cell(c.q as int, c.r as int),
{
    proof {
        lemma_cell_ord_bijection();
    }
    let q: i32 = if i < 5 {
        -4
    } else if i < 11 {
        -3
    } else if i < 18 {
        -2
    } else if i < 26 {
        -1
    } else if i < 35 {
        0
    } else if i < 43 {
        1
    } else if i < 50 {
        2
    } else if i < 56 {
        3
    } else {
        4
    };
    let offset: i32 = if i < 5 {
        0
    } else if i < 11 {
        5
    } else if i < 18 {
        11
    } else if i < 26 {
        18
    } else if i < 35 {
        26
    } else if i < 43 {
        35
    } else if i < 50 {
        43
    } else if i < 56 {
        50
    } else {
        56
    };
    let lo: i32 = if q < 0 {
        -4 - q
    } else {
        -4
    };
    let r: i32 = lo + (i as i32) - offset;
    HexCoord { q, r }
}

/// The compact index of a valid cell.
fn cell_index(c: HexCoord) -> (i: usize)
    requires
        spec_valid_cell(c.q as int, c.r as int),
    ensures
        i == cell_ord(c),
        i < 61,
{
    proof {
        lemma_cell_ord_bijection();
    }
    let offset: i32 = if c.q == -4 {
        0
    } else if c.q == -3 {
        5
    } else if c.q == -2 {
        11
    } else if c.q == -1 {
        18
    } else if c.q == 0 {
        26
    } else if c.q == 1 {
        35
    } else if c.q == 2 {
        43
    } else if c.q == 3 {
        50
    } else {
        56
    };
    let lo: i32 = if c.q < 0 {
        -4 - c.q
    } else {
        -4
    };
    (offset + c.r - lo) as usize
}

/// The board of one enumerated position: kings on their cells, and for
/// configurations with a piece, the stronger side's piece (always White in
/// the stored tables) on its own cell. None when cells collide or the kings
/// are adjacent.

/// A cell placed on a board view.
pub open spec fn put_cell(b: Seq<Option<Piece>>, c: HexCoord, p: Piece) -> Seq<Option<Piece>> {
    b.update(crate::board::slot_of(c.q as int, c.r as int), Some(p))
}

/// Whether an enumerated placement is geometrically admissible: the kings
/// stand on distinct, non-adjacent cells, and the stronger side's piece, if
/// the configuration has one, stands on a third cell and is no king.
pub open spec fn spec_placement_ok(kind: Option<PieceType>, wk: int, bk: int, p: int) -> bool {
    &&& 0 <= wk < 61
    &&& 0 <= bk < 61
    &&& 0 <= p < spec_pslots(kind)
    &&& wk != bk
    &&& crate::hex::spec_hex_distance(cell_at_ord(wk), cell_at_ord(bk)) > 1
    &&& match kind {
        None => true,
        Some(PieceType::Lance) => p / 2 != wk && p / 2 != bk,
        Some(other) => p != wk && p != bk && other != PieceType::King,
    }
}

/// The board of an enumerated placement: the kings on their cells and, for
/// configurations with a piece, the stronger side's piece as White.
pub open spec fn spec_position_board(
    kind: Option<PieceType>,
    wk: int,
    bk: int,
    p: int,
) -> Seq<Option<Piece>> {
    let base = put_cell(
        put_cell(
            Seq::new(81, |i: int| None::<Piece>),
            cell_at_ord(wk),
            Piece { piece_type: PieceType::King, color: Color::White, variant: None },
        ),
        cell_at_ord(bk),
        Piece { piece_type: PieceType::King, color: Color::Black, variant: None },
    );
    match kind {
        None => base,
        Some(PieceType::Lance) => put_cell(
            base,
            cell_at_ord(p / 2),
            Piece {
                piece_type: PieceType::Lance,
                color: Color::White,
                variant: Some(
                    if p % 2 == 0 {
                        LanceVariant::A
                    } else {
                        LanceVariant::B
                    },
                ),
            },
        ),
        Some(other) => put_cell(
            base,
            cell_at_ord(p),
            Piece { piece_type: other, color: Color::White, variant: None },
        ),
    }
}

/// An enumerated position is part of a configuration's table when its
/// placement is admissible and the side not to move is not in check.
pub open spec fn spec_position_ok(
    kind: Option<PieceType>,
    wk: int,
    bk: int,
    p: int,
    stm_white: bool,
) -> bool {
    &&& spec_placement_ok(kind, wk, bk, p)
    &&& !crate::moves::spec_in_check(
        spec_position_board(kind, wk, bk, p),
        if stm_white {
            Color::Black
        } else {
            Color::White
        },
    )
}

/// Build the board of an enumerated placement, or None when the placement
/// is not admissible.
fn make_position_board(
    kind: Option<PieceType>,
    wk: usize,
    bk: usize,
    p: usize,
    pslots: usize,
) -> (r: Option<BoardState>)
    requires
        wk < 61,
        bk < 61,
        p < pslots,
        pslots == spec_pslots(kind),
    ensures
        r is Some <==> spec_placement_ok(kind, wk as int, bk as int, p as int),
        match r {
            Some(b) => board_wf(b@) && b@ == spec_position_board(
                kind,
                wk as int,
                bk as int,
                p as int,
            ),
            None => true,
        },
{
    proof {
        lemma_cell_ord_bijection();
    }
    let wc = cell_from_ord(wk);
    let bc = cell_from_ord(bk);
    if wk == bk {
        return None;
    }
    // Adjacent kings can never occur: the arriving king would stand in
    // check.
    let d = crate::hex::hex_distance(wc, bc);
    if d <= 1 {
        return None;
    }
    let mut board = BoardState::new();
    proof {
        assert(board@ =~= Seq::new(81, |i: int| None::<Piece>));
    }
    board.place(wc, Piece::new(PieceType::King, Color::White));
    board.place(bc, Piece::new(PieceType::King, Color::Black));
    match kind {
        None => {
            proof {
                assert(board@ =~= spec_position_board(kind, wk as int, bk as int, p as int));
            }
            Some(board)
        },
        Some(PieceType::Lance) => {
            let cell_idx = p / 2;
            let variant = if p % 2 == 0 {
                LanceVariant::A
            } else {
                LanceVariant::B
            };
            proof {
                assert(p / 2 < 61) by (nonlinear_arith)
                    requires
                        p < 122,
                {}
            }
            let pc = cell_from_ord(cell_idx);
            if cell_idx == wk || cell_idx == bk {
                return None;
            }
            board.place(pc, Piece::lance(Color::White, variant));
            proof {
                assert(board@ =~= spec_position_board(kind, wk as int, bk as int, p as int));
            }
            Some(board)
        },
        Some(other) => {
            if p == wk || p == bk {
                return None;
            }
            if matches!(other, PieceType::King) {
                return None;
            }
            let pc = cell_from_ord(p);
            board.place(pc, Piece::new(other, Color::White));
            proof {
                assert(board@ =~= spec_position_board(kind, wk as int, bk as int, p as int));
            }
            Some(board)
        },
    }
}

/// An emitted pair is one of the enumerated positions: some admissible
/// placement produced its board, with the side to move not delivering
/// check.
pub open spec fn sound_position(kind: Option<PieceType>, pr: (BoardState, Color)) -> bool {
    exists|wk: int, bk: int, p: int|
        #[trigger] spec_position_board(kind, wk, bk, p) == pr.0@ && spec_position_ok(
            kind,
            wk,
            bk,
            p,
            pr.1 == Color::White,
        )
}

/// A position index decomposes uniquely into its placement and side to
/// move.
proof fn lemma_pos_index_round_trip(wk: int, bk: int, p: int, pslots: int, stm: int)
    requires
        0 <= wk < 61,
        0 <= bk < 61,
        0 <= p < pslots,
        1 <= pslots,
        0 <= stm < 2,
    ensures
        ({
            let j = spec_pos_index(wk, bk, p, pslots, stm);
            &&& 0 <= j < 61 * 61 * pslots * 2
            &&& j % 2 == stm
            &&& (j / 2) % pslots == p
            &&& ((j / 2) / pslots) % 61 == bk
            &&& ((j / 2) / pslots) / 61 == wk
        }),
{
    let j = spec_pos_index(wk, bk, p, pslots, stm);
    assert(j == ((wk * 61 + bk) * pslots + p) * 2 + stm && 0 <= j < 61 * 61 * pslots * 2
        && j / 2 == (wk * 61 + bk) * pslots + p && j % 2 == stm) by (nonlinear_arith)
        requires
            0 <= wk < 61,
            0 <= bk < 61,
            0 <= p < pslots,
            1 <= pslots,
            0 <= stm < 2,
            j == spec_pos_index(wk, bk, p, pslots, stm),
    {}
    let h = (wk * 61 + bk) * pslots + p;
    assert(h % pslots == p && h / pslots == wk * 61 + bk) by (nonlinear_arith)
        requires
            0 <= p < pslots,
            1 <= pslots,
            h == (wk * 61 + bk) * pslots + p,
    {}
    assert((wk * 61 + bk) % 61 == bk && (wk * 61 + bk) / 61 == wk) by (nonlinear_arith)
        requires
            0 <= wk,
            0 <= bk < 61,
    {}
}

/// Enumerate every legal position of a configuration: all non-adjacent king
/// pairs, every placement of the stronger side's piece, both sides to move,
/// discarding positions where the side not to move is already in check. The
/// result is sound and complete for configurations of at most one stronger
/// piece; wider configurations yield no positions.
#[verifier::rlimit(100)]
pub fn generate_all_positions(config: &TablebaseConfig) -> (positions: Vec<(BoardState, Color)>)
    ensures
        forall|i: int|
            0 <= i < positions@.len() ==> board_wf((#[trigger] positions@[i]).0@)
                && !crate::moves::spec_in_check(
                positions@[i].0@,
                crate::piece::spec_opposite_color(positions@[i].1),
            ),
        config.stronger_side@.len() > 1 ==> positions@.len() == 0,
        config.stronger_side@.len() <= 1 ==> ({
            let kind = if config.stronger_side@.len() == 1 {
                Some(config.stronger_side@[0])
            } else {
                None::<PieceType>
            };
            &&& forall|i: int|
                0 <= i < positions@.len() ==> sound_position(kind, #[trigger] positions@[i])
            &&& forall|wk: int, bk: int, p: int, sw: bool|
                #[trigger] spec_position_ok(kind, wk, bk, p, sw) ==> exists|i: int|
                    0 <= i < positions@.len() && (#[trigger] positions@[i]).0@
                        == spec_position_board(kind, wk, bk, p) && positions@[i].1 == (if sw {
                        Color::White
                    } else {
                        Color::Black
                    })
        }),
{
    let mut positions: Vec<(BoardState, Color)> = Vec::new();
    if config.stronger_side.len() > 1 {
        return positions;
    }
    let kind: Option<PieceType> = if config.stronger_side.len() == 1 {
        Some(config.stronger_side[0])
    } else {
        None
    };
    let pslots = pslots_of(kind);
    proof {
        assert(61 * 61 * pslots * 2 <= 61 * 61 * 122 * 2) by (nonlinear_arith)
            requires
                pslots <= 122,
        {}
    }
    let total: usize = 61 * 61 * pslots * 2;
    let mut idx: usize = 0;
    while idx < total
        invariant
            total == 61 * 61 * pslots * 2,
            pslots == spec_pslots(kind),
            1 <= pslots <= 122,
            idx <= total,
            forall|i: int|
                0 <= i < positions@.len() ==> board_wf((#[trigger] positions@[i]).0@)
                    && !crate::moves::spec_in_check(
                    positions@[i].0@,
                    crate::piece::spec_opposite_color(positions@[i].1),
                ),
            forall|i: int|
                0 <= i < positions@.len() ==> sound_position(kind, #[trigger] positions@[i]),
            forall|wk: int, bk: int, p: int, sw: bool|
                #[trigger] spec_position_ok(kind, wk, bk, p, sw) && spec_pos_index(
                    wk,
                    bk,
                    p,
                    pslots as int,
                    if sw {
                        0int
                    } else {
                        1int
                    },
                ) < idx ==> exists|i: int|
                    0 <= i < positions@.len() && (#[trigger] positions@[i]).0@
                        == spec_position_board(kind, wk, bk, p) && positions@[i].1 == (if sw {
                        Color::White
                    } else {
                        Color::Black
                    }),
        decreases total - idx,
    {
        let stm: usize = idx % 2;
        let rest: usize = idx / 2;
        let p: usize = rest % pslots;
        let rest2: usize = rest / pslots;
        let bk: usize = rest2 % 61;
        let wk: usize = rest2 / 61;
        proof {
            assert(wk < 61 && bk < 61 && p < pslots && stm < 2 && spec_pos_index(
                wk as int,
                bk as int,
                p as int,
                pslots as int,
                stm as int,
            ) == idx as int) by (nonlinear_arith)
                requires
                    idx < total,
                    total == 61 * 61 * pslots * 2,
                    1 <= pslots,
                    stm == idx % 2,
                    rest == idx / 2,
                    p == rest % pslots,
                    rest2 == rest / pslots,
                    bk == rest2 % 61,
                    wk == rest2 / 61,
            {}
        }
        let side = if stm == 0 {
            Color::White
        } else {
            Color::Black
        };
        let ghost dec_ok = spec_position_ok(kind, wk as int, bk as int, p as int, stm == 0);
        let ghost before = positions@;
        let mut pushed = false;
        match make_position_board(kind, wk, bk, p, pslots) {
            Some(board) => {
                let opponent = side.opposite();
                if !crate::moves::is_in_check(&board, opponent) {
                    proof {
                        assert(dec_ok);
                    }
                    positions.push((board, side));
                    pushed = true;
                    proof {
                        assert(positions@.len() == before.len() + 1);
                        assert(positions@[before.len() as int].0@ == spec_position_board(
                            kind,
                            wk as int,
                            bk as int,
                            p as int,
                        ));
                        assert(positions@[before.len() as int].1 == side);
                        assert(forall|i: int|
                            0 <= i < before.len() ==> #[trigger] positions@[i] == before[i]);
                    }
                } else {
                    proof {
                        assert(!dec_ok);
                    }
                }
            },
            None => {
                proof {
                    assert(!spec_placement_ok(kind, wk as int, bk as int, p as int));
                    assert(!dec_ok);
                }
            },
        }
        proof {
            assert(pushed == dec_ok);
            assert(positions@.len() == before.len() + (if pushed {
                1int
            } else {
                0int
            }));
            assert forall|i: int|
                0 <= i < positions@.len() implies sound_position(
                kind,
                #[trigger] positions@[i],
            ) by {
                if i < before.len() {
                    assert(positions@[i] == before[i]);
                    assert(sound_position(kind, before[i]));
                } else {
                    assert(pushed && i == before.len());
                    assert(spec_position_board(kind, wk as int, bk as int, p as int)
                        == positions@[i].0@);
                    assert(positions@[i].1 == side);
                    assert(spec_position_ok(
                        kind,
                        wk as int,
                        bk as int,
                        p as int,
                        positions@[i].1 == Color::White,
                    ));
                    assert(sound_position(kind, positions@[i]));
                }
            }
            assert forall|wk2: int, bk2: int, p2: int, sw: bool|
                #[trigger] spec_position_ok(kind, wk2, bk2, p2, sw) && spec_pos_index(
                    wk2,
                    bk2,
                    p2,
                    pslots as int,
                    if sw {
                        0int
                    } else {
                        1int
                    },
                ) < idx + 1 implies exists|i: int|
                0 <= i < positions@.len() && (#[trigger] positions@[i]).0@
                    == spec_position_board(kind, wk2, bk2, p2) && positions@[i].1 == (if sw {
                    Color::White
                } else {
                    Color::Black
                }) by {
                let stm2: int = if sw {
                    0
                } else {
                    1
                };
                let j2 = spec_pos_index(wk2, bk2, p2, pslots as int, stm2);
                lemma_pos_index_round_trip(wk2, bk2, p2, pslots as int, stm2);
                if j2 < idx {
                    let iw = choose|iw: int|
                        0 <= iw < before.len() && (#[trigger] before[iw]).0@
                            == spec_position_board(kind, wk2, bk2, p2) && before[iw].1 == (
                        if sw {
                            Color::White
                        } else {
                            Color::Black
                        });
                    assert(positions@[iw] == before[iw]);
                    assert(positions@[iw].0@ == spec_position_board(kind, wk2, bk2, p2));
                } else {
                    // This is the placement the current index decodes to.
                    assert(j2 == idx);
                    assert(wk2 == wk && bk2 == bk && p2 == p && stm2 == stm);
                    assert(sw == (stm == 0));
                    assert(dec_ok);
                    assert(pushed);
                    let i = positions@.len() - 1;
                    assert(positions@[i].0@ == spec_position_board(kind, wk2, bk2, p2)
                        && positions@[i].1 == (if sw {
                        Color::White
                    } else {
                        Color::Black
                    }));
                }
            }
        }
        idx = idx + 1;
    }
    proof {
        assert forall|wk: int, bk: int, p: int, sw: bool|
            #[trigger] spec_position_ok(kind, wk, bk, p, sw) implies spec_pos_index(
            wk,
            bk,
            p,
            pslots as int,
            if sw {
                0int
            } else {
                1int
            },
        ) < total as int by {
            lemma_pos_index_round_trip(
                wk,
                bk,
                p,
                pslots as int,
                if sw {
                    0int
                } else {
                    1int
                },
            );
        }
    }
    positions
}

/// Number of non-king pieces on the board from slot `i` upward.
pub open spec fn nonking_count_from(b: Seq<Option<Piece>>, i: int) -> int
    decreases 81 - i,
{
    if i < 0 || i >= 81 || b.len() != 81 {
        0
    } else {
        (match b[i] {
            Some(p) => if p.piece_type != PieceType::King {
                1int
            } else {
                0int
            },
            None => 0,
        }) + nonking_count_from(b, i + 1)
    }
}

/// The highest slot holding a non-king piece among slots 0..=i.
pub open spec fn last_nonking_slot(b: Seq<Option<Piece>>, i: int) -> Option<int>
    decreases i + 1,
{
    if i < 0 || i >= 81 || b.len() != 81 {
        None
    } else {
        match b[i] {
            Some(p) => if p.piece_type != PieceType::King {
                Some(i)
            } else {
                last_nonking_slot(b, i - 1)
            },
            None => last_nonking_slot(b, i - 1),
        }
    }
}

/// The placement coordinate of the stronger side's piece inside a
/// tablebase's index space: its compact cell index, doubled with a variant
/// bit for lances.
pub open spec fn spec_piece_slot(p: Piece, c: HexCoord) -> int {
    if p.piece_type == PieceType::Lance {
        cell_ord(c) * 2 + (if p.variant == Some(LanceVariant::A) {
            0int
        } else {
            1int
        })
    } else {
        cell_ord(c)
    }
}

/// The position index a board occupies in a tablebase for `kind`: both
/// kings on valid cells, exactly the configured White piece besides them,
/// folded with the side to move; None when the board does not fit the
/// configuration.
pub open spec fn spec_encode(
    b: Seq<Option<Piece>>,
    kind: Option<PieceType>,
    stm_white: bool,
) -> Option<int> {
    let pslots = spec_pslots(kind);
    let stm: int = if stm_white {
        0
    } else {
        1
    };
    match (
        crate::moves::spec_find_king(b, Color::White),
        crate::moves::spec_find_king(b, Color::Black),
    ) {
        (Some(wk), Some(bk)) => {
            if !spec_valid_cell(wk.q as int, wk.r as int) || !spec_valid_cell(
                bk.q as int,
                bk.r as int,
            ) {
                None
            } else {
                match kind {
                    None => if nonking_count_from(b, 0) != 0 {
                        None
                    } else {
                        Some(spec_pos_index(cell_ord(wk), cell_ord(bk), 0, pslots, stm))
                    },
                    Some(want) => if nonking_count_from(b, 0) != 1 {
                        None
                    } else {
                        match last_nonking_slot(b, 80) {
                            Some(slot) => {
                                let pc = b[slot]->Some_0;
                                let c = HexCoord {
                                    q: slot_q(slot) as i32,
                                    r: slot_r(slot) as i32,
                                };
                                if pc.piece_type != want || pc.color != Color::White
                                    || !spec_valid_cell(c.q as int, c.r as int) {
                                    None
                                } else if spec_piece_slot(pc, c) >= pslots {
                                    None
                                } else {
                                    Some(
                                        spec_pos_index(
                                            cell_ord(wk),
                                            cell_ord(bk),
                                            spec_piece_slot(pc, c),
                                            pslots,
                                            stm,
                                        ),
                                    )
                                }
                            },
                            None => None,
                        }
                    },
                }
            }
        },
        _ => None,
    }
}

/// Encode a board as its tablebase position index.
fn encode_board(board: &BoardState, kind: Option<PieceType>, pslots: usize, stm_white: bool) -> (r:
    Option<usize>)
    requires
        board_wf(board@),
        pslots == spec_pslots(kind),
    ensures
        match r {
            Some(i) => i < 61 * 61 * pslots * 2 && spec_encode(board@, kind, stm_white) == Some(
                i as int,
            ),
            None => spec_encode(board@, kind, stm_white) is None,
        },
{
    let wk = match crate::moves::find_king(board, Color::White) {
        Some(c) => c,
        None => {
            return None;
        },
    };
    let bk = match crate::moves::find_king(board, Color::Black) {
        Some(c) => c,
        None => {
            return None;
        },
    };
    if !crate::hex::is_valid_cell(wk) || !crate::hex::is_valid_cell(bk) {
        return None;
    }
    let wk_ord = cell_index(wk);
    let bk_ord = cell_index(bk);
    // Find the non-king pieces; there must be exactly the configured one.
    let mut extra: Option<(HexCoord, Piece)> = None;
    let mut extra_count: usize = 0;
    let mut i: usize = 0;
    proof {
        assert(nonking_count_from(board@, 81) == 0);
    }
    while i < 81
        invariant
            board_wf(board@),
            i <= 81,
            extra_count <= i,
            extra_count + nonking_count_from(board@, i as int) == nonking_count_from(board@, 0),
            match extra {
                Some(pair) => {
                    &&& last_nonking_slot(board@, i - 1) == Some(
                        crate::board::slot_of(pair.0.q as int, pair.0.r as int),
                    )
                    &&& pair.0.q == slot_q(crate::board::slot_of(pair.0.q as int, pair.0.r as int))
                    &&& pair.0.r == slot_r(crate::board::slot_of(pair.0.q as int, pair.0.r as int))
                    &&& board@[crate::board::slot_of(pair.0.q as int, pair.0.r as int)] == Some(
                        pair.1,
                    )
                    &&& extra_count >= 1
                },
                None => extra_count == 0 && last_nonking_slot(board@, i - 1) is None,
            },
        decreases 81 - i,
    {
        let q: i32 = (i as i32) / 9 - 4;
        let r: i32 = (i as i32) % 9 - 4;
        let coord = HexCoord { q, r };
        proof {
            assert(q == slot_q(i as int) && r == slot_r(i as int));
            assert(crate::board::slot_of(slot_q(i as int), slot_r(i as int)) == i as int)
                by (nonlinear_arith)
                requires
                    0 <= i < 81,
            {}
        }
        if let Some(pc) = board.piece_at(coord) {
            if !matches!(pc.piece_type, PieceType::King) {
                extra_count = extra_count + 1;
                extra = Some((coord, pc));
            }
        }
        i = i + 1;
    }
    let p: usize = match kind {
        None => {
            if extra_count != 0 {
                return None;
            }
            0
        },
        Some(want) => {
            if extra_count != 1 {
                return None;
            }
            let pair = match extra {
                Some(pair) => pair,
                None => {
                    return None;
                },
            };
            let same_kind = piece_kind_eq(pair.1.piece_type, want);
            if !same_kind || !matches!(pair.1.color, Color::White) {
                return None;
            }
            if !crate::hex::is_valid_cell(pair.0) {
                return None;
            }
            let cord = cell_index(pair.0);
            if matches!(want, PieceType::Lance) {
                let vbit: usize = match pair.1.variant {
                    Some(LanceVariant::A) => 0,
                    _ => 1,
                };
                proof {
                    assert(cord * 2 + vbit < 122) by (nonlinear_arith)
                        requires
                            cord < 61,
                            vbit < 2,
                    {}
                }
                cord * 2 + vbit
            } else {
                cord
            }
        },
    };
    if p >= pslots {
        return None;
    }
    let stm: usize = if stm_white {
        0
    } else {
        1
    };
    Some(pos_index(wk_ord, bk_ord, p, pslots, stm))
}

/// Whether two piece classes are the same.
pub fn piece_kind_eq(a: PieceType, b: PieceType) -> (r: bool)
    ensures
        r == (a == b),
{
    match (a, b) {
        (PieceType::Pawn, PieceType::Pawn) => true,
        (PieceType::King, PieceType::King) => true,
        (PieceType::Queen, PieceType::Queen) => true,
        (PieceType::Knight, PieceType::Knight) => true,
        (PieceType::Lance, PieceType::Lance) => true,
        (PieceType::Chariot, PieceType::Chariot) => true,
        _ => false,
    }
}

/// Number of resolved entries in an entry array.
pub open spec fn entry_count(entries: Seq<Option<TablebaseEntry>>) -> int
    decreases entries.len(),
{
    if entries.len() == 0 {
        0
    } else {
        entry_count(entries.drop_last()) + (if entries.last() is Some {
            1int
        } else {
            0int
        })
    }
}

/// Every resolved winning entry carries a best move.
pub open spec fn wins_have_moves(entries: Seq<Option<TablebaseEntry>>) -> bool {
    forall|i: int|
        0 <= i < entries.len() && (#[trigger] entries[i]) is Some && entries[i]->Some_0.wdl
            == WDLOutcome::Win ==> entries[i]->Some_0.best_move is Some
}

/// The shape every resolved entry keeps: wins are at least one ply from
/// mate and carry a best move; losses count plies to the mate on the board
/// and carry none; draws sit at the sentinel distance and carry none.
pub open spec fn entry_shape_ok(e: TablebaseEntry) -> bool {
    &&& e.wdl == WDLOutcome::Win ==> 1 <= e.dtm && e.best_move is Some
    &&& e.wdl == WDLOutcome::Loss ==> 0 <= e.dtm && e.best_move is None
    &&& e.wdl == WDLOutcome::Draw ==> e.dtm == -1 && e.best_move is None
}

/// Whether the position a tablebase index denotes exists: the index
/// decodes to an admissible placement whose side not to move is not in
/// check.
pub open spec fn spec_ok_at(kind: Option<PieceType>, pslots: int, j: int) -> bool {
    spec_position_ok(
        kind,
        ((j / 2) / pslots) / 61,
        ((j / 2) / pslots) % 61,
        (j / 2) % pslots,
        j % 2 == 0,
    )
}

/// Every resolved entry of the array has the verdict shape above.
pub open spec fn entries_shape_ok(entries: Seq<Option<TablebaseEntry>>) -> bool {
    forall|i: int|
        0 <= i < entries.len() && (#[trigger] entries[i]) is Some ==> entry_shape_ok(
            entries[i]->Some_0,
        )
}

proof fn lemma_entry_count_update(entries: Seq<Option<TablebaseEntry>>, i: int, v: Option<
    TablebaseEntry,
>)
    requires
        0 <= i < entries.len(),
    ensures
        entry_count(entries.update(i, v)) == entry_count(entries) - (if entries[i] is Some {
            1int
        } else {
            0int
        }) + (if v is Some {
            1int
        } else {
            0int
        }),
    decreases entries.len(),
{
    let u = entries.update(i, v);
    if i == entries.len() - 1 {
        assert(u.drop_last() =~= entries.drop_last());
        assert(u.last() == v);
    } else {
        assert(u.drop_last() =~= entries.drop_last().update(i, v));
        assert(u.last() == entries.last());
        lemma_entry_count_update(entries.drop_last(), i, v);
    }
}

/// Generate a tablebase for a configuration by retrograde analysis: terminal
/// positions seed the verdicts, wins and losses propagate to predecessors
/// until a fixed point, and the rest are draws. Every winning entry carries
/// a best move.
#[verifier::rlimit(100)]
pub fn generate_tablebase(config: &TablebaseConfig) -> (tb: PieceTablebase)
    ensures
        tb.name@ == config.name@,
        wins_have_moves(tb.entries@),
        entries_shape_ok(tb.entries@),
        tb.size == entry_count(tb.entries@),
        tb.metadata.win_count + tb.metadata.draw_count + tb.metadata.loss_count == tb.size,
        config.stronger_side@.len() <= 1 ==> ({
            let kind = if config.stronger_side@.len() == 1 {
                Some(config.stronger_side@[0])
            } else {
                None::<PieceType>
            };
            &&& tb.entries@.len() == 61 * 61 * spec_pslots(kind) * 2
            &&& forall|j: int|
                0 <= j < tb.entries@.len() ==> (((#[trigger] tb.entries@[j]) is Some)
                    <==> spec_ok_at(kind, spec_pslots(kind), j))
        }),
{
    let start_time = instant_now();
    let kind: Option<PieceType> = if config.stronger_side.len() >= 1 {
        Some(config.stronger_side[0])
    } else {
        None
    };
    let enumerable = config.stronger_side.len() <= 1;
    let pslots = pslots_of(kind);
    proof {
        assert(61 * 61 * pslots * 2 <= 61 * 61 * 122 * 2) by (nonlinear_arith)
            requires
                pslots <= 122,
        {}
    }
    let npos: usize = if enumerable {
        61 * 61 * pslots * 2
    } else {
        0
    };
    let mut entries: Vec<Option<TablebaseEntry>> = Vec::new();
    let mut statuses: Vec<u8> = Vec::new();
    let mut succs: Vec<Vec<(u32, u32)>> = Vec::new();
    let mut i: usize = 0;
    while i < npos
        invariant
            i <= npos,
            entries@.len() == i,
            statuses@.len() == i,
            succs@.len() == i,
            forall|j: int| 0 <= j < i ==> (#[trigger] entries@[j]) is None,
            forall|j: int| 0 <= j < i ==> (#[trigger] statuses@[j]) == 0,
            forall|j: int| 0 <= j < i ==> (#[trigger] succs@[j])@.len() == 0,
        decreases npos - i,
    {
        entries.push(None);
        statuses.push(0);
        succs.push(Vec::new());
        i = i + 1;
    }
    proof {
        lemma_entry_count_none(entries@);
    }
    let mut unknown_list: Vec<u32> = Vec::new();
    // Phase 1: enumerate positions, resolve terminal ones, and record each
    // other position's successor indices and moves.
    if enumerable {
        let mut idx: usize = 0;
        while idx < npos
            invariant
                enumerable,
                npos == 61 * 61 * pslots * 2,
                pslots == spec_pslots(kind),
                1 <= pslots <= 122,
                idx <= npos,
                entries@.len() == npos,
                statuses@.len() == npos,
                succs@.len() == npos,
                unknown_list@.len() <= idx,
                forall|j: int| 0 <= j < unknown_list@.len() ==> (#[trigger] unknown_list@[j])
                    < npos as u32,
                wins_have_moves(entries@),
                entries_shape_ok(entries@),
                forall|j: int|
                    0 <= j < entries@.len() && (#[trigger] entries@[j]) is Some ==> -1
                        <= entries@[j]->Some_0.dtm <= 1000000,
                forall|j: int, k: int|
                    0 <= j < succs@.len() && 0 <= k < succs@[j].len() ==> (
                    #[trigger] succs@[j][k]).0 <= npos as u32,
                forall|j: int|
                    0 <= j < idx ==> (((#[trigger] statuses@[j]) != 0) == spec_ok_at(
                        kind,
                        pslots as int,
                        j,
                    )),
                forall|j: int| idx <= j < npos ==> (#[trigger] statuses@[j]) == 0,
                forall|j: int|
                    0 <= j < npos ==> (((#[trigger] statuses@[j]) == 2) == (entries@[j]
                        is Some)),
                forall|j: int|
                    0 <= j < npos ==> (#[trigger] statuses@[j]) == 0 || statuses@[j] == 1
                        || statuses@[j] == 2,
                forall|j: int|
                    0 <= j < npos && (#[trigger] statuses@[j]) == 1 ==> exists|t: int|
                        0 <= t < unknown_list@.len() && #[trigger] unknown_list@[t] == j as u32,
            decreases npos - idx,
        {
            let stm: usize = idx % 2;
            let rest: usize = idx / 2;
            let p: usize = rest % pslots;
            let rest2: usize = rest / pslots;
            let bk: usize = rest2 % 61;
            let wk: usize = rest2 / 61;
            proof {
                assert(wk < 61 && bk < 61 && p < pslots && stm < 2 && spec_pos_index(
                    wk as int,
                    bk as int,
                    p as int,
                    pslots as int,
                    stm as int,
                ) == idx as int) by (nonlinear_arith)
                    requires
                        idx < npos,
                        npos == 61 * 61 * pslots * 2,
                        1 <= pslots,
                        stm == idx % 2,
                        rest == idx / 2,
                        p == rest % pslots,
                        rest2 == rest / pslots,
                        bk == rest2 % 61,
                        wk == rest2 / 61,
                {}
                assert(spec_ok_at(kind, pslots as int, idx as int) == spec_position_ok(
                    kind,
                    wk as int,
                    bk as int,
                    p as int,
                    stm == 0,
                ));
            }
            let side = if stm == 0 {
                Color::White
            } else {
                Color::Black
            };
            let ghost dec_ok = spec_position_ok(kind, wk as int, bk as int, p as int, stm == 0);
            let ghost list_before = unknown_list@;
            match make_position_board(kind, wk, bk, p, pslots) {
                Some(board) => {
                    let opponent = side.opposite();
                    if !crate::moves::is_in_check(&board, opponent) {
                        proof {
                            assert(dec_ok);
                        }
                        let legal = crate::moves::generate_all_legal_moves(&board, side);
                        if legal.len() == 0 {
                            let in_check = crate::moves::is_in_check(&board, side);
                            let entry = if in_check {
                                TablebaseEntry {
                                    wdl: WDLOutcome::Loss,
                                    dtm: 0,
                                    best_move: None,
                                }
                            } else {
                                TablebaseEntry {
                                    wdl: WDLOutcome::Draw,
                                    dtm: -1,
                                    best_move: None,
                                }
                            };
                            entries.set(idx, Some(entry));
                            statuses.set(idx, 2);
                        } else {
                            // Record successors for the fixed point.
                            proof {
                                crate::moves::lemma_all_legal_moves_shape(board@, side, 0);
                            }
                            let mut slist: Vec<(u32, u32)> = Vec::new();
                            let mut mi: usize = 0;
                            while mi < legal.len()
                                invariant
                                    board_wf(board@),
                                    npos == 61 * 61 * pslots * 2,
                                    pslots == spec_pslots(kind),
                                    1 <= pslots <= 122,
                                    mi <= legal@.len(),
                                    forall|k: int|
                                        0 <= k < legal@.len() ==> {
                                            let m = #[trigger] legal@[k];
                                            &&& crate::hex::cell_in_box(m.from)
                                            &&& crate::hex::cell_in_box(m.to)
                                            &&& crate::piece::piece_wf(m.piece)
                                        },
                                    forall|k: int|
                                        0 <= k < slist@.len() ==> (#[trigger] slist@[k]).0
                                            <= npos as u32,
                                decreases legal.len() - mi,
                            {
                                let mv = legal[mi];
                                let nb = crate::moves::apply_move(&board, &mv);
                                let sidx: u32 = match encode_board(
                                    &nb,
                                    kind,
                                    pslots,
                                    !matches!(side, Color::White),
                                ) {
                                    Some(si) => si as u32,
                                    None => npos as u32,
                                };
                                let packed = pack_move(&mv);
                                slist.push((sidx, packed));
                                mi = mi + 1;
                            }
                            succs.set(idx, slist);
                            statuses.set(idx, 1);
                            unknown_list.push(idx as u32);
                            proof {
                                assert forall|j: int|
                                    0 <= j < npos && (#[trigger] statuses@[j]) == 1 implies
                                    exists|t: int|
                                        0 <= t < unknown_list@.len()
                                            && #[trigger] unknown_list@[t] == j as u32 by {
                                    if j == idx as int {
                                        assert(unknown_list@[unknown_list@.len() - 1]
                                            == j as u32);
                                    } else {
                                        let t = choose|t: int|
                                            0 <= t < list_before.len()
                                                && #[trigger] list_before[t] == j as u32;
                                        assert(unknown_list@[t] == j as u32);
                                    }
                                }
                            }
                        }
                    } else {
                        proof {
                            assert(!dec_ok);
                        }
                    }
                },
                None => {
                    proof {
                        assert(!spec_placement_ok(kind, wk as int, bk as int, p as int));
                        assert(!dec_ok);
                    }
                },
            }
            idx = idx + 1;
        }
    }
    // Phase 2: propagate wins and losses until a fixed point.
    let mut changed = true;
    let mut iteration: usize = 0;
    while changed && iteration < 500
        invariant
            entries@.len() == npos,
            statuses@.len() == npos,
            succs@.len() == npos,
            iteration <= 500,
            forall|j: int|
                0 <= j < npos ==> (((#[trigger] statuses@[j]) != 0) == spec_ok_at(
                    kind,
                    pslots as int,
                    j,
                )),
            forall|j: int|
                0 <= j < npos ==> (((#[trigger] statuses@[j]) == 2) == (entries@[j] is Some)),
            forall|j: int|
                0 <= j < npos ==> (#[trigger] statuses@[j]) == 0 || statuses@[j] == 1
                    || statuses@[j] == 2,
            forall|j: int|
                0 <= j < npos && (#[trigger] statuses@[j]) == 1 ==> exists|t: int|
                    0 <= t < unknown_list@.len() && #[trigger] unknown_list@[t] == j as u32,
            forall|j: int| 0 <= j < unknown_list@.len() ==> (#[trigger] unknown_list@[j])
                < npos as u32,
            wins_have_moves(entries@),
            entries_shape_ok(entries@),
            forall|j: int, k: int|
                0 <= j < succs@.len() && 0 <= k < succs@[j].len() ==> (#[trigger] succs@[j][k]).0
                    <= npos as u32,
            forall|j: int|
                0 <= j < entries@.len() && (#[trigger] entries@[j]) is Some ==> -1
                    <= entries@[j]->Some_0.dtm <= 1000000,
        decreases 500 - iteration, (if changed {
            1int
        } else {
            0int
        }),
    {
        changed = false;
        iteration = iteration + 1;
        let mut u: usize = 0;
        let total_unknown = unknown_list.len();
        while u < total_unknown
            invariant
                entries@.len() == npos,
                statuses@.len() == npos,
                succs@.len() == npos,
                total_unknown == unknown_list@.len(),
                u <= total_unknown,
                forall|j: int|
                    0 <= j < npos ==> (((#[trigger] statuses@[j]) != 0) == spec_ok_at(
                        kind,
                        pslots as int,
                        j,
                    )),
                forall|j: int|
                    0 <= j < npos ==> (((#[trigger] statuses@[j]) == 2) == (entries@[j] is Some)),
                forall|j: int|
                    0 <= j < npos ==> (#[trigger] statuses@[j]) == 0 || statuses@[j] == 1
                        || statuses@[j] == 2,
                forall|j: int|
                    0 <= j < npos && (#[trigger] statuses@[j]) == 1 ==> exists|t: int|
                        0 <= t < unknown_list@.len() && #[trigger] unknown_list@[t] == j as u32,
                forall|j: int| 0 <= j < unknown_list@.len() ==> (#[trigger] unknown_list@[j])
                    < npos as u32,
                wins_have_moves(entries@),
                entries_shape_ok(entries@),
                forall|j: int, k: int|
                    0 <= j < succs@.len() && 0 <= k < succs@[j].len() ==> (
                    #[trigger] succs@[j][k]).0 <= npos as u32,
                forall|j: int|
                    0 <= j < entries@.len() && (#[trigger] entries@[j]) is Some ==> -1
                        <= entries@[j]->Some_0.dtm <= 1000000,
            decreases total_unknown - u,
        {
            let idx = unknown_list[u] as usize;
            if statuses[idx] == 1 {
                let slist_len = succs[idx].len();
                let mut has_winning_move = false;
                let mut all_moves_lose = slist_len > 0;
                let mut best_packed: u32 = 0;
                let mut best_dtm: i32 = 0;
                let mut max_dtm: i32 = -1;
                let mut si: usize = 0;
                while si < slist_len
                    invariant
                        entries@.len() == npos,
                        succs@.len() == npos,
                        idx < npos,
                        slist_len == succs@[idx as int].len(),
                        si <= slist_len,
                        forall|j: int, k: int|
                            0 <= j < succs@.len() && 0 <= k < succs@[j].len() ==> (
                            #[trigger] succs@[j][k]).0 <= npos as u32,
                        forall|j: int|
                            0 <= j < entries@.len() && (#[trigger] entries@[j]) is Some ==> -1
                                <= entries@[j]->Some_0.dtm <= 1000000,
                        entries_shape_ok(entries@),
                        has_winning_move ==> 1 <= best_dtm <= 1000000,
                        -1 <= max_dtm <= 1000000,
                    decreases slist_len - si,
                {
                    let pair = succs[idx][si];
                    let sidx = pair.0 as usize;
                    if sidx >= npos {
                        // Successor outside the enumerated family: unresolved.
                        all_moves_lose = false;
                    } else {
                        match entries[sidx] {
                            None => {
                                all_moves_lose = false;
                            },
                            Some(entry) => {
                                match entry.wdl {
                                    WDLOutcome::Loss => {
                                        let nd = if entry.dtm < 1000000 {
                                            entry.dtm + 1
                                        } else {
                                            1000000
                                        };
                                        if !has_winning_move || nd < best_dtm {
                                            best_packed = pair.1;
                                            best_dtm = nd;
                                        }
                                        has_winning_move = true;
                                    },
                                    WDLOutcome::Win => {
                                        if entry.dtm > max_dtm {
                                            max_dtm = entry.dtm;
                                        }
                                    },
                                    WDLOutcome::Draw => {
                                        all_moves_lose = false;
                                    },
                                }
                            },
                        }
                    }
                    si = si + 1;
                }
                if has_winning_move {
                    let best = unpack_move(best_packed);
                    entries.set(
                        idx,
                        Some(
                            TablebaseEntry {
                                wdl: WDLOutcome::Win,
                                dtm: best_dtm,
                                best_move: Some(best),
                            },
                        ),
                    );
                    statuses.set(idx, 2);
                    changed = true;
                } else if all_moves_lose {
                    let ld = if max_dtm < 1000000 {
                        max_dtm + 1
                    } else {
                        1000000
                    };
                    entries.set(
                        idx,
                        Some(TablebaseEntry { wdl: WDLOutcome::Loss, dtm: ld, best_move: None }),
                    );
                    statuses.set(idx, 2);
                    changed = true;
                }
            }
            u = u + 1;
        }
    }
    // Phase 3: everything still unresolved is a draw.
    let mut u: usize = 0;
    let total_unknown = unknown_list.len();
    while u < total_unknown
        invariant
            entries@.len() == npos,
            statuses@.len() == npos,
            total_unknown == unknown_list@.len(),
            u <= total_unknown,
            forall|j: int| 0 <= j < unknown_list@.len() ==> (#[trigger] unknown_list@[j])
                < npos as u32,
            wins_have_moves(entries@),
            entries_shape_ok(entries@),
            forall|j: int|
                0 <= j < npos ==> (((#[trigger] statuses@[j]) != 0) == spec_ok_at(
                    kind,
                    pslots as int,
                    j,
                )),
            forall|j: int|
                0 <= j < npos ==> (((#[trigger] statuses@[j]) == 2) == (entries@[j] is Some)),
            forall|j: int|
                0 <= j < npos ==> (#[trigger] statuses@[j]) == 0 || statuses@[j] == 1
                    || statuses@[j] == 2,
            forall|j: int|
                0 <= j < npos && (#[trigger] statuses@[j]) == 1 ==> exists|t: int|
                    0 <= t < unknown_list@.len() && #[trigger] unknown_list@[t] == j as u32,
            forall|t: int|
                0 <= t < u ==> (#[trigger] statuses@[unknown_list@[t] as int]) != 1,
        decreases total_unknown - u,
    {
        let idx = unknown_list[u] as usize;
        if statuses[idx] == 1 {
            entries.set(
                idx,
                Some(TablebaseEntry { wdl: WDLOutcome::Draw, dtm: -1, best_move: None }),
            );
            statuses.set(idx, 2);
        }
        u = u + 1;
    }
    proof {
        // No position stayed unresolved, so an entry exists exactly at the
        // enumerated positions.
        assert forall|j: int| 0 <= j < npos implies (#[trigger] statuses@[j]) != 1 by {
            if statuses@[j] == 1 {
                let t = choose|t: int|
                    0 <= t < unknown_list@.len() && #[trigger] unknown_list@[t] == j as u32;
                assert(statuses@[unknown_list@[t] as int] != 1);
            }
        }
        assert forall|j: int| 0 <= j < npos implies (((#[trigger] entries@[j]) is Some)
            <==> spec_ok_at(kind, pslots as int, j)) by {
            assert(statuses@[j] == 0 || statuses@[j] == 2);
        }
    }
    // Tally the verdicts.
    let mut win_count: usize = 0;
    let mut draw_count: usize = 0;
    let mut loss_count: usize = 0;
    let mut size: usize = 0;
    let mut t: usize = 0;
    let total = entries.len();
    while t < total
        invariant
            total == entries@.len(),
            t <= total,
            size == entry_count(entries@.subrange(0, t as int)),
            win_count + draw_count + loss_count == size,
            size <= t,
        decreases total - t,
    {
        proof {
            assert(entries@.subrange(0, t + 1 as int).drop_last() =~= entries@.subrange(
                0,
                t as int,
            ));
        }
        if let Some(e) = entries[t] {
            size = size + 1;
            match e.wdl {
                WDLOutcome::Win => {
                    win_count = win_count + 1;
                },
                WDLOutcome::Draw => {
                    draw_count = draw_count + 1;
                },
                WDLOutcome::Loss => {
                    loss_count = loss_count + 1;
                },
            }
        }
        t = t + 1;
    }
    proof {
        assert(entries@.subrange(0, entries@.len() as int) =~= entries@);
    }
    let elapsed = elapsed_ms(&start_time);
    let mut description = String::new();
    description.append("Endgame tablebase for ");
    description.append(config.name.as_str());
    let name = config.name.clone();
    PieceTablebase {
        name,
        description,
        piece_kind: kind,
        entries,
        size,
        metadata: TablebaseMetadata {
            generated_at: utc_now_rfc3339(),
            generation_time_ms: elapsed,
            win_count,
            draw_count,
            loss_count,
        },
    }
}

proof fn lemma_entry_count_none(entries: Seq<Option<TablebaseEntry>>)
    requires
        forall|j: int| 0 <= j < entries.len() ==> (#[trigger] entries[j]) is None,
    ensures
        entry_count(entries) == 0,
    decreases entries.len(),
{
    if entries.len() > 0 {
        lemma_entry_count_none(entries.drop_last());
    }
}

/// Pack a move's origin, destination, and promotion into one word.
fn pack_move(mv: &Move) -> (p: u32)
    requires
        crate::hex::cell_in_box(mv.from),
        crate::hex::cell_in_box(mv.to),
{
    let from_ord = ((mv.from.q + 4) * 9 + (mv.from.r + 4)) as u32;
    let to_ord = ((mv.to.q + 4) * 9 + (mv.to.r + 4)) as u32;
    let promo: u32 = match mv.promotion {
        None => 0,
        Some(PieceType::Queen) => 1,
        Some(PieceType::Chariot) => 2,
        Some(PieceType::Lance) => 3,
        Some(PieceType::Knight) => 4,
        Some(_) => 0,
    };
    proof {
        assert((from_ord * 81 + to_ord) * 5 + promo < 33210) by (nonlinear_arith)
            requires
                from_ord < 81,
                to_ord < 81,
                promo < 5,
        {}
    }
    (from_ord * 81 + to_ord) * 5 + promo
}

/// Unpack a stored move back into coordinates and promotion.
fn unpack_move(p: u32) -> (s: SerializedMove)
{
    let promo_code = p % 5;
    let rest = p / 5;
    let to_slot = rest % 81;
    let from_slot = (rest / 81) % 81;
    proof {
        assert(rest % 81 < 81) by (nonlinear_arith) {}
        assert((rest / 81) % 81 < 81) by (nonlinear_arith) {}
    }
    let fq: i32 = (from_slot as i32) / 9 - 4;
    let fr: i32 = (from_slot as i32) % 9 - 4;
    let tq: i32 = (to_slot as i32) / 9 - 4;
    let tr: i32 = (to_slot as i32) % 9 - 4;
    let promotion: Option<PieceType> = match promo_code {
        1 => Some(PieceType::Queen),
        2 => Some(PieceType::Chariot),
        3 => Some(PieceType::Lance),
        4 => Some(PieceType::Knight),
        _ => None,
    };
    SerializedMove { from_q: fq, from_r: fr, to_q: tq, to_r: tr, promotion }
}

// ============================================================================
// Reflection
// ============================================================================

/// The color-swapped piece.
pub open spec fn spec_swap_piece(p: Piece) -> Piece {
    Piece { piece_type: p.piece_type, color: crate::piece::spec_opposite_color(p.color), variant: p.variant }
}

/// The point reflection of a board through the origin, with colors swapped.
pub open spec fn spec_reflect_board(b: Seq<Option<Piece>>) -> Seq<Option<Piece>> {
    Seq::new(
        81,
        |i: int|
            match crate::board::board_at(b, -slot_q(i), -slot_r(i)) {
                Some(p) => Some(spec_swap_piece(p)),
                None => None,
            },
    )
}

/// Reflect a board through the origin, swapping the colors.
pub fn reflect_board(board: &BoardState) -> (r: BoardState)
    requires
        board_wf(board@),
    ensures
        board_wf(r@),
        r@ == spec_reflect_board(board@),
{
    let ghost b = board@;
    let mut out = BoardState::new();
    let mut i: usize = 0;
    proof {
        crate::board::lemma_slot_bijection();
    }
    while i < 81
        invariant
            i <= 81,
            board_wf(b),
            board_wf(out@),
            out@.len() == 81,
            forall|j: int|
                0 <= j < 81 ==> #[trigger] out@[j] == (if crate::board::slot_of(
                    -slot_q(j),
                    -slot_r(j),
                ) < i {
                    spec_reflect_board(b)[j]
                } else {
                    None
                }),
        decreases 81 - i,
    {
        let q: i32 = (i as i32) / 9 - 4;
        let r: i32 = (i as i32) % 9 - 4;
        proof {
            assert(q == slot_q(i as int) && r == slot_r(i as int));
            assert(crate::board::slot_of(slot_q(i as int), slot_r(i as int)) == i as int)
                by (nonlinear_arith)
                requires
                    0 <= i < 81,
            {}
        }
        let src = HexCoord { q, r };
        let dst = HexCoord { q: -q, r: -r };
        let ghost t = crate::board::slot_of(-slot_q(i as int), -slot_r(i as int));
        proof {
            assert(slot_q(t) == -slot_q(i as int) && slot_r(t) == -slot_r(i as int));
            assert(crate::board::slot_of(-slot_q(t), -slot_r(t)) == i as int);
        }
        if let Some(p) = board.piece_at(src) {
            let swapped = Piece { piece_type: p.piece_type, color: p.color.opposite(), variant: p.variant };
            out.set_cell(dst, Some(swapped));
            proof {
                assert forall|j: int| 0 <= j < 81 implies #[trigger] out@[j] == (
                    if crate::board::slot_of(-slot_q(j), -slot_r(j)) < i + 1 {
                        spec_reflect_board(b)[j]
                    } else {
                        None
                    }) by {
                    if j == t {
                        assert(out@[j] == Some(swapped));
                        assert(spec_reflect_board(b)[j] == Some(spec_swap_piece(p)));
                    }
                }
            }
        } else {
            proof {
                assert forall|j: int| 0 <= j < 81 implies #[trigger] out@[j] == (
                    if crate::board::slot_of(-slot_q(j), -slot_r(j)) < i + 1 {
                        spec_reflect_board(b)[j]
                    } else {
                        None
                    }) by {
                    if j == t {
                        assert(spec_reflect_board(b)[j] == None::<Piece>);
                    }
                }
            }
        }
        i = i + 1;
    }
    proof {
        assert(out@ =~= spec_reflect_board(b)) by {
            assert forall|j: int| 0 <= j < 81 implies out@[j] == spec_reflect_board(b)[j] by {
                assert(0 <= crate::board::slot_of(-slot_q(j), -slot_r(j)) < 81);
            }
        }
    }
    out
}

/// Reflecting twice restores the board.
pub proof fn lemma_reflect_involution(b: Seq<Option<Piece>>)
    requires
        b.len() == 81,
    ensures
        spec_reflect_board(spec_reflect_board(b)) == b,
{
    crate::board::lemma_slot_bijection();
    assert(spec_reflect_board(spec_reflect_board(b)) =~= b) by {
        assert forall|i: int| 0 <= i < 81 implies spec_reflect_board(spec_reflect_board(b))[i]
            == b[i] by {
            assert(-4 <= slot_q(i) <= 4 && -4 <= slot_r(i) <= 4) by (nonlinear_arith)
                requires
                    0 <= i < 81,
            {}
            let t = crate::board::slot_of(-slot_q(i), -slot_r(i));
            assert(slot_q(t) == -slot_q(i) && slot_r(t) == -slot_r(i));
            match b[i] {
                Some(p) => {
                    assert(spec_reflect_board(b)[t] == Some(spec_swap_piece(p)));
                },
                None => {
                    assert(spec_reflect_board(b)[t] == None::<Piece>);
                },
            }
        }
    }
}

// ============================================================================
// Probing
// ============================================================================

/// Negate a coordinate component, leaving the unreachable extreme value in
/// place.
fn neg_coord(x: i32) -> (r: i32)
    ensures
        x != i32::MIN ==> r == -x,
{
    if x == i32::MIN {
        x
    } else {
        -x
    }
}

/// The registry item and entry index a probe resolves a position to:
/// the configuration must be supported, a tablebase of its name loaded,
/// the position (normalized so the stronger side is White) encodable in
/// that tablebase's index space, and the indexed entry present.
pub open spec fn spec_probe_slot(
    items: Seq<PieceTablebase>,
    b: Seq<Option<Piece>>,
    stm: Color,
) -> Option<(int, int)> {
    if !spec_config_supported(b) {
        None
    } else {
        match reg_lookup(items, spec_config_name(b), 0) {
            Some(ti) => {
                let tb = items[ti];
                let normalize = !spec_stronger_is_white(b);
                let nb = if normalize {
                    spec_reflect_board(b)
                } else {
                    b
                };
                let nstm_white = if normalize {
                    stm == Color::Black
                } else {
                    stm == Color::White
                };
                match spec_encode(nb, tb.piece_kind, nstm_white) {
                    Some(ei) => if 0 <= ei < tb.entries@.len() && tb.entries@[ei] is Some {
                        Some((ti, ei))
                    } else {
                        None
                    },
                    None => None,
                }
            },
            None => None,
        }
    }
}

/// A probe miss.
fn probe_miss() -> (r: TablebaseProbeResult)
    ensures
        !r.found,
        r.entry is None,
        r.tablebase_name is None,
{
    TablebaseProbeResult { found: false, entry: None, tablebase_name: None }
}

/// Probe the loaded tablebases for a position. Positions whose stronger
/// side is Black are looked up through their color-swapped reflection, so
/// either orientation of a stored configuration is found.
pub fn probe_tablebase(board: &BoardState, side_to_move: Color, registry: &TablebaseRegistry) -> (r:
    TablebaseProbeResult)
    requires
        board_wf(board@),
    ensures
        r.found <==> spec_probe_slot(registry.items@, board@, side_to_move) is Some,
        r.found <==> r.entry is Some,
        r.found <==> r.tablebase_name is Some,
        match r.tablebase_name {
            Some(nm) => nm@ == spec_config_name(board@),
            None => true,
        },
        r.found ==> ({
            let slot = spec_probe_slot(registry.items@, board@, side_to_move)->Some_0;
            let stored = registry.items@[slot.0].entries@[slot.1]->Some_0;
            &&& r.entry->Some_0.wdl == stored.wdl
            &&& r.entry->Some_0.dtm == stored.dtm
            &&& (r.entry->Some_0.best_move is Some <==> stored.best_move is Some)
            &&& (spec_stronger_is_white(board@) ==> r.entry == Some(stored))
        }),
{
    let config = match detect_configuration(board) {
        Some(c) => c,
        None => {
            return probe_miss();
        },
    };
    let tb = match get_tablebase(registry, config.name.as_str()) {
        Some(t) => t,
        None => {
            return probe_miss();
        },
    };
    let white_pieces = collect_side_pieces(board, Color::White);
    let black_pieces = collect_side_pieces(board, Color::Black);
    let stronger_white = white_pieces.len() >= black_pieces.len();
    let pslots = pslots_of(tb.piece_kind);
    let idx_opt: Option<usize> = if stronger_white {
        encode_board(board, tb.piece_kind, pslots, matches!(side_to_move, Color::White))
    } else {
        let rb = reflect_board(board);
        encode_board(&rb, tb.piece_kind, pslots, !matches!(side_to_move, Color::White))
    };
    let idx = match idx_opt {
        Some(i) => i,
        None => {
            return probe_miss();
        },
    };
    if idx >= tb.entries.len() {
        return probe_miss();
    }
    let ghost ti = reg_lookup(registry.items@, spec_config_name(board@), 0)->Some_0;
    proof {
        lemma_reg_lookup_found(registry.items@, spec_config_name(board@), 0);
    }
    match tb.entries[idx] {
        Some(e) => {
            let entry = if stronger_white {
                e
            } else {
                // Translate the stored best move back to the probed
                // orientation.
                let best = match e.best_move {
                    Some(m) => Some(
                        SerializedMove {
                            from_q: neg_coord(m.from_q),
                            from_r: neg_coord(m.from_r),
                            to_q: neg_coord(m.to_q),
                            to_r: neg_coord(m.to_r),
                            promotion: m.promotion,
                        },
                    ),
                    None => None,
                };
                TablebaseEntry { wdl: e.wdl, dtm: e.dtm, best_move: best }
            };
            proof {
                assert(spec_probe_slot(registry.items@, board@, side_to_move) == Some(
                    (ti, idx as int),
                ));
            }
            TablebaseProbeResult {
                found: true,
                entry: Some(entry),
                tablebase_name: Some(config.name),
            }
        },
        None => probe_miss(),
    }
}

/// Clamp a mathematical score into `i32`.
pub open spec fn clamp_i32(v: int) -> int {
    if v < -2147483648 {
        -2147483648
    } else if v > 2147483647 {
        2147483647
    } else {
        v
    }
}

/// Score of a tablebase entry from the side to move's perspective: wins
/// count down from the mate score by the distance to mate, draws are zero,
/// losses mirror the wins.
pub open spec fn spec_entry_score(e: TablebaseEntry) -> int {
    match e.wdl {
        WDLOutcome::Win => clamp_i32(100000 - e.dtm),
        WDLOutcome::Draw => 0,
        WDLOutcome::Loss => clamp_i32(-100000 + e.dtm),
    }
}

/// Convert a tablebase entry to a centipawn score.
pub fn tablebase_entry_score(entry: &TablebaseEntry) -> (v: i32)
    ensures
        v == spec_entry_score(*entry),
{
    match entry.wdl {
        WDLOutcome::Win => {
            let w: i64 = 100000 - (entry.dtm as i64);
            if w > 2147483647 {
                2147483647
            } else if w < -2147483648 {
                -2147483648
            } else {
                w as i32
            }
        },
        WDLOutcome::Draw => 0,
        WDLOutcome::Loss => {
            let w: i64 = -100000 + (entry.dtm as i64);
            if w > 2147483647 {
                2147483647
            } else if w < -2147483648 {
                -2147483648
            } else {
                w as i32
            }
        },
    }
}

/// Tablebase score of a position for the side to move, when a loaded
/// tablebase resolves it.
pub fn get_tablebase_score(board: &BoardState, side_to_move: Color, registry: &TablebaseRegistry)
    -> (score: Option<i32>)
    requires
        board_wf(board@),
    ensures
        score is Some <==> spec_probe_slot(registry.items@, board@, side_to_move) is Some,
        score is Some ==> ({
            let slot = spec_probe_slot(registry.items@, board@, side_to_move)->Some_0;
            score->Some_0 == spec_entry_score(registry.items@[slot.0].entries@[slot.1]->Some_0)
        }),
{
    let result = probe_tablebase(board, side_to_move, registry);
    match result.entry {
        Some(entry) => Some(tablebase_entry_score(&entry)),
        None => None,
    }
}

/// The tablebase lookup key of a position: the fingerprint with the side to
/// move appended.
pub open spec fn spec_tablebase_key(b: Seq<Option<Piece>>, side: Color) -> Seq<char> {
    spec_fingerprint(b) + seq!['-'] + seq![
        match side {
            Color::White => 'w',
            Color::Black => 'b',
        },
    ]
}

/// Render the canonical tablebase key of a position.
pub fn get_tablebase_key(board: &BoardState, side_to_move: Color) -> (s: String)
    requires
        board_wf(board@),
    ensures
        s@ == spec_tablebase_key(board@, side_to_move),
{
    let mut s = fingerprint(board);
    match side_to_move {
        Color::White => s.append("-w"),
        Color::Black => s.append("-b"),
    }
    proof {
        reveal_strlit("-w");
        reveal_strlit("-b");
        assert(s@ =~= spec_tablebase_key(board@, side_to_move));
    }
    s
}

// ============================================================================
// On-demand generation
// ============================================================================

/// The piece class a configuration-name letter denotes.
pub open spec fn letter_piece(c: char) -> Option<PieceType> {
    if c == 'Q' {
        Some(PieceType::Queen)
    } else if c == 'L' {
        Some(PieceType::Lance)
    } else if c == 'C' {
        Some(PieceType::Chariot)
    } else if c == 'N' {
        Some(PieceType::Knight)
    } else if c == 'P' {
        Some(PieceType::Pawn)
    } else {
        None
    }
}

/// Every character in [from, to) is a piece letter.
pub open spec fn all_piece_letters(s: Seq<char>, from: int, to: int) -> bool {
    forall|j: int| from <= j < to ==> (#[trigger] letter_piece(s[j])) is Some
}

/// A well-formed configuration name: "K", piece letters, "vK", piece
/// letters.
pub open spec fn tb_name_split(s: Seq<char>) -> Option<int> {
    if s.len() >= 3 && s[0] == 'K' && (exists|v: int|
        1 <= v < s.len() - 1 && s[v] == 'v' && s[v + 1] == 'K' && all_piece_letters(s, 1, v)
            && all_piece_letters(s, v + 2, s.len() as int)) {
        Some(
            choose|v: int|
                1 <= v < s.len() - 1 && s[v] == 'v' && s[v + 1] == 'K' && all_piece_letters(
                    s,
                    1,
                    v,
                ) && all_piece_letters(s, v + 2, s.len() as int),
        )
    } else {
        None
    }
}

/// Parse a configuration name and generate its tablebase, loading it into
/// the registry; None when the name is not of the form "K<pieces>vK<pieces>".
pub fn generate_tablebase_on_demand(name: &str, registry: &mut TablebaseRegistry) -> (r: Option<
    PieceTablebase,
>)
    ensures
        r is Some <==> tb_name_split(name@) is Some,
        match r {
            Some(tb) => tb.name@ == name@ && wins_have_moves(tb.entries@) && entries_shape_ok(
                tb.entries@,
            ),
            None => final(registry).items@ == old(registry).items@,
        },
        r is Some ==> exists|ti: int|
            {
                &&& 0 <= ti < final(registry).items@.len()
                &&& (#[trigger] final(registry).items@[ti]).name@ == name@
                &&& final(registry).items@[ti].entries@ == r->Some_0.entries@
            },
{
    let n = name.unicode_len();
    if n < 3 {
        proof {
            assert(tb_name_split(name@) is None);
        }
        return None;
    }
    if name.get_char(0) != 'K' {
        return None;
    }
    // Find the first 'v'.
    let mut v: usize = 1;
    let mut found = false;
    while v < n && !found
        invariant
            1 <= v <= n == name@.len(),
            found ==> v < n && name@[v as int] == 'v',
            forall|j: int| 1 <= j < v ==> name@[j] != 'v',
        decreases n - v + (if found {
            0int
        } else {
            1int
        }),
    {
        if name.get_char(v) == 'v' {
            found = true;
        } else {
            v = v + 1;
        }
    }
    if !found || v + 1 >= n {
        proof {
            if tb_name_split(name@) is Some {
                let w = choose|w: int|
                    1 <= w < name@.len() - 1 && name@[w] == 'v' && name@[w + 1] == 'K'
                        && all_piece_letters(name@, 1, w) && all_piece_letters(
                        name@,
                        w + 2,
                        name@.len() as int,
                    );
                if !found {
                    assert(name@[w] != 'v');
                } else {
                    assert(v < n && v + 1 >= n);
                    if w < v {
                        assert(name@[w] != 'v');
                    } else if w > v {
                        assert(letter_piece(name@[v as int]) is Some);
                    }
                }
            }
        }
        return None;
    }
    if name.get_char(v + 1) != 'K' {
        proof {
            if tb_name_split(name@) is Some {
                let w = choose|w: int|
                    1 <= w < name@.len() - 1 && name@[w] == 'v' && name@[w + 1] == 'K'
                        && all_piece_letters(name@, 1, w) && all_piece_letters(
                        name@,
                        w + 2,
                        name@.len() as int,
                    );
                if w < v {
                    assert(name@[w] != 'v');
                } else if w > v {
                    assert(letter_piece(name@[v as int]) is Some);
                }
            }
        }
        return None;
    }
    // Collect the stronger side's letters.
    let mut stronger_side: Vec<PieceType> = Vec::new();
    let mut i: usize = 1;
    while i < v
        invariant
            1 <= i <= v < n == name@.len(),
            all_piece_letters(name@, 1, i as int),
            stronger_side@.len() == i - 1,
        decreases v - i,
    {
        let c = name.get_char(i);
        let pt: Option<PieceType> = match c {
            'Q' => Some(PieceType::Queen),
            'L' => Some(PieceType::Lance),
            'C' => Some(PieceType::Chariot),
            'N' => Some(PieceType::Knight),
            'P' => Some(PieceType::Pawn),
            _ => None,
        };
        match pt {
            Some(t) => {
                stronger_side.push(t);
            },
            None => {
                proof {
                    if tb_name_split(name@) is Some {
                        let w = choose|w: int|
                            1 <= w < name@.len() - 1 && name@[w] == 'v' && name@[w + 1] == 'K'
                                && all_piece_letters(name@, 1, w) && all_piece_letters(
                                name@,
                                w + 2,
                                name@.len() as int,
                            );
                        if w < v {
                            assert(name@[w] != 'v');
                        } else if w > v {
                            assert(letter_piece(name@[v as int]) is Some);
                        } else {
                            assert(letter_piece(name@[i as int]) is Some);
                        }
                    }
                }
                return None;
            },
        }
        i = i + 1;
    }
    // Collect the weaker side's letters.
    let mut weaker_side: Vec<PieceType> = Vec::new();
    let mut k: usize = v + 2;
    while k < n
        invariant
            v + 2 <= k <= n == name@.len(),
            v < n,
            all_piece_letters(name@, v + 2 as int, k as int),
            name@[v as int] == 'v',
            forall|j: int| 1 <= j < v ==> name@[j] != 'v',
            all_piece_letters(name@, 1, v as int),
        decreases n - k,
    {
        let c = name.get_char(k);
        let pt: Option<PieceType> = match c {
            'Q' => Some(PieceType::Queen),
            'L' => Some(PieceType::Lance),
            'C' => Some(PieceType::Chariot),
            'N' => Some(PieceType::Knight),
            'P' => Some(PieceType::Pawn),
            _ => None,
        };
        match pt {
            Some(t) => {
                weaker_side.push(t);
            },
            None => {
                proof {
                    if tb_name_split(name@) is Some {
                        let w = choose|w: int|
                            1 <= w < name@.len() - 1 && name@[w] == 'v' && name@[w + 1] == 'K'
                                && all_piece_letters(name@, 1, w) && all_piece_letters(
                                name@,
                                w + 2,
                                name@.len() as int,
                            );
                        if w < v {
                            assert(name@[w] != 'v');
                        } else if w > v {
                            assert(letter_piece(name@[v as int]) is Some);
                        } else {
                            assert(letter_piece(name@[k as int]) is Some);
                        }
                    }
                }
                return None;
            },
        }
        k = k + 1;
    }
    proof {
        assert(tb_name_split(name@) is Some) by {
            assert(1 <= v < name@.len() - 1 && name@[v as int] == 'v' && name@[v + 1] == 'K'
                && all_piece_letters(name@, 1, v as int) && all_piece_letters(
                name@,
                v + 2 as int,
                name@.len() as int,
            ));
        }
    }
    let mut owned_name = String::new();
    owned_name.append(name);
    let config = TablebaseConfig { stronger_side, weaker_side, name: owned_name };
    let tablebase = generate_tablebase(&config);
    let copy = duplicate_tablebase(&tablebase);
    let ghost items0 = registry.items@;
    let ghost stored = copy;
    set_tablebase(registry, copy);
    proof {
        // The registry now holds the generated table under the parsed name.
        match reg_lookup(items0, stored.name@, 0) {
            Some(i) => {
                lemma_reg_lookup_found(items0, stored.name@, 0);
                assert(registry.items@[i].name@ == name@);
                assert(registry.items@[i].entries@ == tablebase.entries@);
            },
            None => {
                let i = items0.len() as int;
                assert(registry.items@[i].name@ == name@);
                assert(registry.items@[i].entries@ == tablebase.entries@);
            },
        }
    }
    Some(tablebase)
}

/// An exact copy of a tablebase.
fn duplicate_tablebase(tb: &PieceTablebase) -> (r: PieceTablebase)
    ensures
        r.name@ == tb.name@,
        r.entries@ == tb.entries@,
        r.size == tb.size,
{
    let mut entries: Vec<Option<TablebaseEntry>> = Vec::new();
    let n = tb.entries.len();
    let mut i: usize = 0;
    while i < n
        invariant
            i <= n == tb.entries@.len(),
            entries@ =~= tb.entries@.subrange(0, i as int),
        decreases n - i,
    {
        entries.push(tb.entries[i]);
        i = i + 1;
    }
    proof {
        assert(entries@ =~= tb.entries@);
    }
    PieceTablebase {
        name: tb.name.clone(),
        description: tb.description.clone(),
        piece_kind: tb.piece_kind,
        entries,
        size: tb.size,
        metadata: TablebaseMetadata {
            generated_at: tb.metadata.generated_at.clone(),
            generation_time_ms: tb.metadata.generation_time_ms,
            win_count: tb.metadata.win_count,
            draw_count: tb.metadata.draw_count,
            loss_count: tb.metadata.loss_count,
        },
    }
}

// ============================================================================
// Initialization and statistics
// ============================================================================

/// Whether some registry item bears the given name.
pub open spec fn reg_has_name(items: Seq<PieceTablebase>, name: Seq<char>) -> bool {
    exists|j: int| 0 <= j < items.len() && (#[trigger] items[j].name@) == name
}

/// Some registry item bears the given name and keeps the entry verdict
/// shape.
pub open spec fn reg_has_ok(items: Seq<PieceTablebase>, name: Seq<char>) -> bool {
    exists|j: int|
        0 <= j < items.len() && (#[trigger] items[j]).name@ == name && entries_shape_ok(
            items[j].entries@,
        )
}

proof fn lemma_reg_lookup_exists(items: Seq<PieceTablebase>, name: Seq<char>, i: int)
    requires
        0 <= i <= items.len(),
    ensures
        (reg_lookup(items, name, i) is Some) <==> (exists|j: int|
            i <= j < items.len() && (#[trigger] items[j].name@) == name),
    decreases items.len() - i,
{
    if i < items.len() {
        lemma_reg_lookup_exists(items, name, i + 1);
        if items[i as int].name@ == name {
            assert(exists|j: int|
                i <= j < items.len() && (#[trigger] items[j].name@) == name) by {
                assert(items[i as int].name@ == name);
            }
        }
    }
}

/// Loading a tablebase keeps every name already present and adds its own.
proof fn lemma_set_tablebase_names(
    old_items: Seq<PieceTablebase>,
    new_items: Seq<PieceTablebase>,
    tb: PieceTablebase,
)
    requires
        new_items == (match reg_lookup(old_items, tb.name@, 0) {
            Some(i) => old_items.update(i, tb),
            None => old_items.push(tb),
        }),
    ensures
        reg_has_name(new_items, tb.name@),
        forall|n: Seq<char>| #[trigger] reg_has_name(old_items, n) ==> reg_has_name(new_items, n),
        entries_shape_ok(tb.entries@) ==> reg_has_ok(new_items, tb.name@),
        forall|n: Seq<char>|
            #[trigger] reg_has_ok(old_items, n) && n != tb.name@ ==> reg_has_ok(new_items, n),
{
    lemma_reg_lookup_exists(old_items, tb.name@, 0);
    match reg_lookup(old_items, tb.name@, 0) {
        Some(i) => {
            lemma_reg_lookup_some_bounds(old_items, tb.name@, 0);
            assert(old_items[i].name@ == tb.name@) by {
                lemma_reg_lookup_found(old_items, tb.name@, 0);
            }
            assert(reg_has_name(new_items, tb.name@)) by {
                assert(new_items[i].name@ == tb.name@);
            }
            assert forall|n: Seq<char>| #[trigger] reg_has_name(old_items, n) implies
                reg_has_name(new_items, n) by {
                let j = choose|j: int|
                    0 <= j < old_items.len() && (#[trigger] old_items[j].name@) == n;
                if j == i {
                    assert(new_items[i].name@ == tb.name@);
                    assert(old_items[i].name@ == n);
                } else {
                    assert(new_items[j].name@ == n);
                }
            }
        },
        None => {
            assert(reg_has_name(new_items, tb.name@)) by {
                assert(new_items[new_items.len() - 1].name@ == tb.name@);
            }
            assert forall|n: Seq<char>| #[trigger] reg_has_name(old_items, n) implies
                reg_has_name(new_items, n) by {
                let j = choose|j: int|
                    0 <= j < old_items.len() && (#[trigger] old_items[j].name@) == n;
                assert(new_items[j].name@ == n);
            }
        },
    }
    if entries_shape_ok(tb.entries@) {
        assert(reg_has_ok(new_items, tb.name@)) by {
            match reg_lookup(old_items, tb.name@, 0) {
                Some(i) => {
                    assert(new_items[i].name@ == tb.name@ && entries_shape_ok(
                        new_items[i].entries@,
                    ));
                },
                None => {
                    assert(new_items[new_items.len() - 1].name@ == tb.name@ && entries_shape_ok(
                        new_items[new_items.len() - 1].entries@,
                    ));
                },
            }
        }
    }
    assert forall|n: Seq<char>| #[trigger] reg_has_ok(old_items, n) && n != tb.name@ implies
        reg_has_ok(new_items, n) by {
        let j = choose|j: int|
            0 <= j < old_items.len() && (#[trigger] old_items[j]).name@ == n && entries_shape_ok(
                old_items[j].entries@,
            );
        match reg_lookup(old_items, tb.name@, 0) {
            Some(i) => {
                lemma_reg_lookup_found(old_items, tb.name@, 0);
                assert(old_items[i].name@ == tb.name@);
                assert(j != i);
                assert(new_items[j] == old_items[j]);
            },
            None => {
                assert(new_items[j] == old_items[j]);
            },
        }
        assert((#[trigger] new_items[j]).name@ == n && entries_shape_ok(new_items[j].entries@));
    }
}

proof fn lemma_reg_lookup_some_bounds(items: Seq<PieceTablebase>, name: Seq<char>, i: int)
    requires
        0 <= i <= items.len(),
        reg_lookup(items, name, i) is Some,
    ensures
        i <= reg_lookup(items, name, i)->Some_0 < items.len(),
    decreases items.len() - i,
{
    if i < items.len() && items[i].name@ != name {
        lemma_reg_lookup_some_bounds(items, name, i + 1);
    }
}

proof fn lemma_reg_lookup_found(items: Seq<PieceTablebase>, name: Seq<char>, i: int)
    requires
        0 <= i <= items.len(),
        reg_lookup(items, name, i) is Some,
    ensures
        ({
            let j = reg_lookup(items, name, i)->Some_0;
            0 <= j < items.len() && items[j].name@ == name
        }),
    decreases items.len() - i,
{
    if i < items.len() && items[i].name@ != name {
        lemma_reg_lookup_found(items, name, i + 1);
    }
}

/// Build a configuration from a stronger-side piece list and a name.
fn named_config(pieces: Vec<PieceType>, name: &str) -> (c: TablebaseConfig)
    ensures
        c.name@ == name@,
        c.stronger_side@ == pieces@,
        c.weaker_side@.len() == 0,
{
    let mut owned = String::new();
    owned.append(name);
    TablebaseConfig { stronger_side: pieces, weaker_side: Vec::new(), name: owned }
}

/// Generate and load the seeded endgame tablebases: bare kings and king
/// with queen, lance, chariot, or knight against a lone king.
pub fn initialize_tablebases(registry: &mut TablebaseRegistry)
    ensures
        reg_has_ok(final(registry).items@, "KvK"@),
        reg_has_ok(final(registry).items@, "KQvK"@),
        reg_has_ok(final(registry).items@, "KLvK"@),
        reg_has_ok(final(registry).items@, "KCvK"@),
        reg_has_ok(final(registry).items@, "KNvK"@),
{
    let c1 = named_config(Vec::new(), "KvK");
    let t1 = generate_tablebase(&c1);
    let ghost items0 = registry.items@;
    set_tablebase(registry, t1);
    proof {
        lemma_set_tablebase_names(items0, registry.items@, t1);
    }
    let mut p2: Vec<PieceType> = Vec::new();
    p2.push(PieceType::Queen);
    let c2 = named_config(p2, "KQvK");
    let t2 = generate_tablebase(&c2);
    let ghost items1 = registry.items@;
    set_tablebase(registry, t2);
    proof {
        lemma_set_tablebase_names(items1, registry.items@, t2);
    }
    let mut p3: Vec<PieceType> = Vec::new();
    p3.push(PieceType::Lance);
    let c3 = named_config(p3, "KLvK");
    let t3 = generate_tablebase(&c3);
    let ghost items2 = registry.items@;
    set_tablebase(registry, t3);
    proof {
        lemma_set_tablebase_names(items2, registry.items@, t3);
    }
    let mut p4: Vec<PieceType> = Vec::new();
    p4.push(PieceType::Chariot);
    let c4 = named_config(p4, "KCvK");
    let t4 = generate_tablebase(&c4);
    let ghost items3 = registry.items@;
    set_tablebase(registry, t4);
    proof {
        lemma_set_tablebase_names(items3, registry.items@, t4);
    }
    let mut p5: Vec<PieceType> = Vec::new();
    p5.push(PieceType::Knight);
    let c5 = named_config(p5, "KNvK");
    let t5 = generate_tablebase(&c5);
    let ghost items4 = registry.items@;
    set_tablebase(registry, t5);
    proof {
        lemma_set_tablebase_names(items4, registry.items@, t5);
        reveal_strlit("KvK");
        reveal_strlit("KQvK");
        reveal_strlit("KLvK");
        reveal_strlit("KCvK");
        reveal_strlit("KNvK");
    }
}

/// Per-tablebase statistics.
#[derive(Debug, Clone)]
pub struct TablebaseStat {
    pub name: String,
    pub size: usize,
    pub wins: usize,
    pub draws: usize,
    pub losses: usize,
    pub generation_time_ms: u64,
}

/// Statistics over all loaded tablebases.
#[derive(Debug, Clone)]
pub struct TablebaseStatistics {
    pub total_entries: usize,
    pub tablebases: Vec<TablebaseStat>,
}

/// Sum of loaded tablebase sizes over a slot suffix.
pub open spec fn sizes_sum(items: Seq<PieceTablebase>, i: int) -> int
    decreases items.len() - i,
{
    if i < 0 || i >= items.len() {
        0
    } else {
        items[i].size + sizes_sum(items, i + 1)
    }
}

/// Collect statistics about the loaded tablebases.
pub fn get_tablebase_statistics(registry: &TablebaseRegistry) -> (stats: TablebaseStatistics)
    ensures
        stats.tablebases@.len() == registry.items@.len(),
        forall|i: int|
            0 <= i < registry.items@.len() ==> {
                let st = #[trigger] stats.tablebases@[i];
                &&& st.name@ == registry.items@[i].name@
                &&& st.size == registry.items@[i].size
                &&& st.wins == registry.items@[i].metadata.win_count
                &&& st.draws == registry.items@[i].metadata.draw_count
                &&& st.losses == registry.items@[i].metadata.loss_count
                &&& st.generation_time_ms == registry.items@[i].metadata.generation_time_ms
            },
        stats.total_entries == (if sizes_sum(registry.items@, 0) <= usize::MAX {
            sizes_sum(registry.items@, 0)
        } else {
            usize::MAX as int
        }),
{
    let mut total_entries: usize = 0;
    let mut list: Vec<TablebaseStat> = Vec::new();
    let n = registry.items.len();
    let mut i: usize = 0;
    proof {
        lemma_sizes_sum_nonneg(registry.items@, 0);
    }
    while i < n
        invariant
            i <= n == registry.items@.len(),
            list@.len() == i,
            forall|j: int|
                0 <= j < i ==> {
                    let st = #[trigger] list@[j];
                    &&& st.name@ == registry.items@[j].name@
                    &&& st.size == registry.items@[j].size
                    &&& st.wins == registry.items@[j].metadata.win_count
                    &&& st.draws == registry.items@[j].metadata.draw_count
                    &&& st.losses == registry.items@[j].metadata.loss_count
                    &&& st.generation_time_ms == registry.items@[j].metadata.generation_time_ms
                },
            total_entries + sizes_sum(registry.items@, i as int) == sizes_sum(
                registry.items@,
                0,
            ) || (total_entries == usize::MAX && sizes_sum(registry.items@, 0) >= usize::MAX),
            sizes_sum(registry.items@, 0) <= usize::MAX ==> total_entries + sizes_sum(
                registry.items@,
                i as int,
            ) == sizes_sum(registry.items@, 0),
        decreases n - i,
    {
        let tb = &registry.items[i];
        proof {
            lemma_sizes_sum_nonneg(registry.items@, i as int);
            lemma_sizes_sum_nonneg(registry.items@, i + 1);
        }
        total_entries = saturating_add_usize(total_entries, tb.size);
        let st = TablebaseStat {
            name: tb.name.clone(),
            size: tb.size,
            wins: tb.metadata.win_count,
            draws: tb.metadata.draw_count,
            losses: tb.metadata.loss_count,
            generation_time_ms: tb.metadata.generation_time_ms,
        };
        list.push(st);
        i = i + 1;
    }
    TablebaseStatistics { total_entries, tablebases: list }
}

proof fn lemma_sizes_sum_nonneg(items: Seq<PieceTablebase>, i: int)
    ensures
        sizes_sum(items, i) >= 0,
        0 <= i < items.len() ==> sizes_sum(items, i) >= items[i].size,
    decreases items.len() - i,
{
    if 0 <= i < items.len() {
        lemma_sizes_sum_nonneg(items, i + 1);
    }
}

/// Add without overflowing, stopping at the maximum.
fn saturating_add_usize(a: usize, b: usize) -> (r: usize)
    ensures
        a + b <= usize::MAX ==> r == a + b,
        a + b > usize::MAX ==> r == usize::MAX,
{
    if a <= usize::MAX - b {
        a + b
    } else {
        usize::MAX
    }
}

/// Render a per-mille share as a percentage with one decimal digit.
fn append_share(out: &mut String, part: usize, whole: usize)
    requires
        whole > 0,
        part <= whole,
{
    proof {
        assert((part as int) * 1000 <= (whole as int) * 1000) by (nonlinear_arith)
            requires
                part <= whole,
        {}
    }
    let permille = (((part as u128) * 1000) / (whole as u128)) as u64;
    proof {
        assert(((part as int) * 1000) / (whole as int) <= 1000) by (nonlinear_arith)
            requires
                part <= whole,
                (whole as int) > 0,
        {}
    }
    crate::keys::append_u64_digits(out, permille / 10);
    out.append(".");
    crate::keys::append_u64_digits(out, permille % 10);
    out.append("%");
}

/// Render the loaded tablebase statistics as a human-readable report.
pub fn format_tablebase_statistics(registry: &TablebaseRegistry) -> (s: String)
    ensures
        s@.len() > 0,
{
    let stats = get_tablebase_statistics(registry);
    let mut out = String::new();
    out.append("=== Endgame Tablebase Statistics ===\n\n");
    proof {
        reveal_strlit("=== Endgame Tablebase Statistics ===\n\n");
        assert(out@.len() > 0);
    }
    out.append("Total entries: ");
    crate::keys::append_u64_digits(&mut out, stats.total_entries as u64);
    out.append("\nLoaded tablebases: ");
    crate::keys::append_u64_digits(&mut out, stats.tablebases.len() as u64);
    out.append("\n\n");
    let n = stats.tablebases.len();
    let mut i: usize = 0;
    while i < n
        invariant
            i <= n == stats.tablebases@.len(),
            out@.len() > 0,
        decreases n - i,
    {
        let tb = &stats.tablebases[i];
        out.append(tb.name.as_str());
        out.append(":\n  Size: ");
        crate::keys::append_u64_digits(&mut out, tb.size as u64);
        out.append(" positions\n");
        if tb.size > 0 {
            out.append("  Wins: ");
            crate::keys::append_u64_digits(&mut out, tb.wins as u64);
            out.append(" (");
            if tb.wins <= tb.size {
                append_share(&mut out, tb.wins, tb.size);
            }
            out.append(")\n  Draws: ");
            crate::keys::append_u64_digits(&mut out, tb.draws as u64);
            out.append(" (");
            if tb.draws <= tb.size {
                append_share(&mut out, tb.draws, tb.size);
            }
            out.append(")\n  Losses: ");
            crate::keys::append_u64_digits(&mut out, tb.losses as u64);
            out.append(" (");
            if tb.losses <= tb.size {
                append_share(&mut out, tb.losses, tb.size);
            }
            out.append(")\n");
        }
        out.append("  Generation time: ");
        crate::keys::append_u64_digits(&mut out, tb.generation_time_ms);
        out.append("ms\n\n");
        i = i + 1;
    }
    out
}

} // verus!
