//! Alpha-beta search with quiescence extension, MVV-LVA move ordering, and
//! transposition-table integration.

use vstd::prelude::*;
use vstd::seq_lib::lemma_multiset_commutative;

use crate::board::BoardState;
use crate::board::board_wf;
use crate::clock::elapsed_ms;
use crate::clock::instant_now;
use crate::eval::evaluate_position;
use crate::eval::get_centrality_bonus;
use crate::eval::spec_centrality_bonus;
use crate::eval::spec_evaluate;
use crate::fingerprint::spec_board_key;
use crate::hex::coord_in_range;
use crate::moves::Move;
use crate::moves::apply_move;
use crate::moves::generate_all_legal_moves;
use crate::moves::is_in_check;
use crate::moves::lemma_all_legal_moves_shape;
use crate::moves::lemma_filter_subset;
use crate::moves::spec_all_legal_moves;
use crate::moves::spec_in_check;
use crate::piece::Color;
use crate::piece::get_piece_value;
use crate::piece::piece_wf;
use crate::piece::spec_piece_value;
use crate::tt::TTEntryType;
use crate::tt::TranspositionTable;
use crate::tt::spec_probe;

verus! {

broadcast use
    vstd::seq_lib::group_to_multiset_ensures,
    vstd::seq_lib::to_multiset_update,
    vstd::multiset::group_multiset_axioms,
    lemma_multiset_commutative,
;

/// Inserting after every at-least-as-good entry of a non-increasing list
/// extends the matching estimate class at its end and leaves every other
/// class unchanged.
proof fn lemma_stable_insert(old_tail: Seq<Move>, x: Move, k: int)
    requires
        0 <= k <= old_tail.len(),
        sorted_desc(old_tail),
        forall|j: int|
            0 <= j < k ==> spec_estimate_move_value(#[trigger] old_tail[j])
                >= spec_estimate_move_value(x),
        k < old_tail.len() ==> spec_estimate_move_value(old_tail[k]) < spec_estimate_move_value(
            x,
        ),
    ensures
        forall|v: int|
            #[trigger] same_estimate_class(
                old_tail.subrange(0, k).push(x) + old_tail.subrange(k, old_tail.len() as int),
                v,
            ) == (if v == spec_estimate_move_value(x) {
                same_estimate_class(old_tail, v).push(x)
            } else {
                same_estimate_class(old_tail, v)
            }),
{
    let xv = spec_estimate_move_value(x);
    let left = old_tail.subrange(0, k);
    let right = old_tail.subrange(k, old_tail.len() as int);
    let new_tail = left.push(x) + right;
    assert forall|v: int| #[trigger] same_estimate_class(new_tail, v) == (if v == xv {
        same_estimate_class(old_tail, v).push(x)
    } else {
        same_estimate_class(old_tail, v)
    }) by {
        let pred = est_is(v);
        assert(pred(x) == (xv == v));
        Seq::filter_distributes_over_add(left.push(x), right, pred);
        Seq::filter_distributes_over_add(left, right, pred);
        lemma_filter_push(left, x, pred);
        assert(left + right =~= old_tail);
        if v == xv {
            assert(right.filter(pred) =~= Seq::<Move>::empty()) by {
                assert forall|t: int| 0 <= t < right.len() implies !pred(
                    #[trigger] right[t],
                ) by {
                    assert(right[t] == old_tail[k + t]);
                    if t > 0 {
                        assert(spec_estimate_move_value(old_tail[k])
                            >= spec_estimate_move_value(old_tail[k + t]));
                    }
                    assert(spec_estimate_move_value(old_tail[k]) < xv);
                }
                lemma_filter_none(right, pred);
            }
            assert(same_estimate_class(new_tail, v) =~= same_estimate_class(old_tail, v).push(
                x,
            ));
        } else {
            assert(same_estimate_class(new_tail, v) =~= same_estimate_class(old_tail, v));
        }
    }
}

/// Whether a move's ordering estimate equals `v`.
pub open spec fn est_is(v: int) -> spec_fn(Move) -> bool {
    |m: Move| spec_estimate_move_value(m) == v
}

/// The moves of a list whose ordering estimate equals `v`, in list order.
pub open spec fn same_estimate_class(s: Seq<Move>, v: int) -> Seq<Move> {
    s.filter(est_is(v))
}

/// A filter keeps nothing from a sequence none of whose elements satisfy
/// the predicate.
proof fn lemma_filter_none<A>(s: Seq<A>, pred: spec_fn(A) -> bool)
    requires
        forall|i: int| 0 <= i < s.len() ==> !pred(#[trigger] s[i]),
    ensures
        s.filter(pred) == Seq::<A>::empty(),
    decreases s.len(),
{
    reveal_with_fuel(Seq::filter, 2);
    if s.len() > 0 {
        assert(forall|i: int| 0 <= i < s.drop_last().len() ==> s.drop_last()[i] == s[i]);
        lemma_filter_none(s.drop_last(), pred);
    }
}

/// Filtering a pushed element appends it exactly when it satisfies the
/// predicate.
proof fn lemma_filter_push<A>(s: Seq<A>, a: A, pred: spec_fn(A) -> bool)
    ensures
        s.push(a).filter(pred) == (if pred(a) {
            s.filter(pred).push(a)
        } else {
            s.filter(pred)
        }),
{
    reveal_with_fuel(Seq::filter, 2);
    assert(s.push(a).drop_last() =~= s);
    assert(s.push(a).last() == a);
}

/// Score of a checkmate, biased by remaining depth so nearer mates score
/// higher.
pub const CHECKMATE_VALUE: i32 = 100000;

/// Score of a stalemate.
pub const STALEMATE_VALUE: i32 = 0;

/// Quiescence stops extending beyond this many extra plies.
pub const MAX_QUIESCENCE_DEPTH: i32 = 8;

/// Search never recurses deeper than this many plies.
pub const MAX_SEARCH_DEPTH: i32 = 1000;

/// Search statistics.
#[derive(Debug, Clone, Copy)]
pub struct SearchStats {
    pub nodes_searched: u64,
    pub cutoffs: u64,
    pub max_depth_reached: i32,
    pub tt_hits: u64,
    pub quiescence_nodes: u64,
}

impl SearchStats {
    /// All counters zero.
    pub fn new() -> (s: SearchStats)
        ensures
            s.nodes_searched == 0,
            s.cutoffs == 0,
            s.max_depth_reached == 0,
            s.tt_hits == 0,
            s.quiescence_nodes == 0,
    {
        SearchStats {
            nodes_searched: 0,
            cutoffs: 0,
            max_depth_reached: 0,
            tt_hits: 0,
            quiescence_nodes: 0,
        }
    }
}

impl Default for SearchStats {
    fn default() -> (s: SearchStats)
        ensures
            s.nodes_searched == 0,
            s.cutoffs == 0,
            s.max_depth_reached == 0,
            s.tt_hits == 0,
            s.quiescence_nodes == 0,
    {
        SearchStats::new()
    }
}

/// Search result: the chosen move (when one exists), its score, and the
/// statistics of the search that found it.
#[derive(Debug, Clone, Copy)]
pub struct SearchResult {
    pub best_move: Option<Move>,
    pub score: i32,
    pub stats: SearchStats,
}

/// Add one to a counter, stopping at the maximum.
fn bump(counter: &mut u64)
    ensures
        *old(counter) < u64::MAX ==> *final(counter) == *old(counter) + 1,
        *old(counter) == u64::MAX ==> *final(counter) == u64::MAX,
        *final(counter) >= 1,
        *final(counter) >= *old(counter),
{
    if *counter < u64::MAX {
        *counter = *counter + 1;
    }
}

/// Move ordering score: captures by most-valuable-victim /
/// least-valuable-attacker, promotions by promoted value, plus the
/// centrality of the destination.
pub open spec fn spec_estimate_move_value(m: Move) -> int {
    (if m.captured is Some {
        10000 + spec_piece_value(m.captured->Some_0.piece_type) * 10 - spec_piece_value(
            m.piece.piece_type,
        )
    } else {
        0
    }) + (if m.promotion is Some {
        9000 + spec_piece_value(m.promotion->Some_0) - 100
    } else {
        0
    }) + spec_centrality_bonus(m.to)
}

/// Estimate a move's value for ordering (higher first).
pub fn estimate_move_value(mv: &Move) -> (v: i32)
    requires
        coord_in_range(mv.to),
    ensures
        v == spec_estimate_move_value(*mv),
{
    let mut score: i32 = 0;
    if let Some(captured) = mv.captured {
        let victim_value = get_piece_value(captured.piece_type);
        let attacker_value = get_piece_value(mv.piece.piece_type);
        score = score + 10000 + victim_value * 10 - attacker_value;
    }
    if let Some(promotion) = mv.promotion {
        score = score + 9000 + get_piece_value(promotion) - 100;
    }
    score + get_centrality_bonus(mv.to)
}

/// Every destination in the list is in coordinate range.
pub open spec fn targets_in_range(s: Seq<Move>) -> bool {
    forall|i: int| 0 <= i < s.len() ==> coord_in_range((#[trigger] s[i]).to)
}

/// Non-increasing by estimated move value.
pub open spec fn sorted_desc(s: Seq<Move>) -> bool {
    forall|i: int, j: int|
        0 <= i < j < s.len() ==> spec_estimate_move_value(s[i]) >= spec_estimate_move_value(s[j])
}

/// Sort the moves from index `start` on by estimated value, best first; the
/// prefix stays as it was and the suffix keeps its multiset of moves.
#[verifier::rlimit(100)]
pub fn order_moves_suffix(moves: &mut Vec<Move>, start: usize)
    requires
        start <= old(moves)@.len(),
        targets_in_range(old(moves)@),
    ensures
        final(moves)@.len() == old(moves)@.len(),
        final(moves)@.subrange(0, start as int) == old(moves)@.subrange(0, start as int),
        sorted_desc(final(moves)@.skip(start as int)),
        final(moves)@.skip(start as int).to_multiset() == old(moves)@.skip(
            start as int,
        ).to_multiset(),
        forall|v: int|
            #[trigger] same_estimate_class(final(moves)@.skip(start as int), v)
                == same_estimate_class(old(moves)@.skip(start as int), v),
        targets_in_range(final(moves)@),
{
    let ghost input = moves@;
    let n = moves.len();
    let mut sorted_tail: Vec<Move> = Vec::new();
    let mut i: usize = start;
    proof {
        assert(input.subrange(start as int, start as int) =~= Seq::<Move>::empty());
        assert(sorted_tail@.to_multiset() =~= input.subrange(
            start as int,
            start as int,
        ).to_multiset());
        assert forall|v: int| #[trigger] same_estimate_class(sorted_tail@, v)
            == same_estimate_class(input.subrange(start as int, start as int), v) by {
            reveal_with_fuel(Seq::filter, 1);
            assert(sorted_tail@ =~= input.subrange(start as int, start as int));
        }
    }
    while i < n
        invariant
            start <= i <= n == input.len(),
            moves@ == input,
            targets_in_range(input),
            targets_in_range(sorted_tail@),
            sorted_desc(sorted_tail@),
            sorted_tail@.to_multiset() == input.subrange(start as int, i as int).to_multiset(),
            forall|v: int|
                #[trigger] same_estimate_class(sorted_tail@, v) == same_estimate_class(
                    input.subrange(start as int, i as int),
                    v,
                ),
        decreases n - i,
    {
        let ghost old_tail = sorted_tail@;
        let x = moves[i];
        // Insert after all at-least-as-good entries, keeping earlier equals
        // ahead.
        let mut k: usize = 0;
        while k < sorted_tail.len()
            invariant
                k <= sorted_tail@.len(),
                sorted_tail@ == old_tail,
                targets_in_range(old_tail),
                coord_in_range(x.to),
                forall|j: int|
                    0 <= j < k ==> spec_estimate_move_value(#[trigger] old_tail[j])
                        >= spec_estimate_move_value(x),
            decreases sorted_tail.len() - k,
        {
            let ex = estimate_move_value(&sorted_tail[k]);
            let xv = estimate_move_value(&x);
            if ex < xv {
                break;
            }
            k = k + 1;
        }
        sorted_tail.insert(k, x);
        proof {
            let new_tail = sorted_tail@;
            assert(new_tail =~= old_tail.subrange(0, k as int).push(x) + old_tail.subrange(
                k as int,
                old_tail.len() as int,
            ));
            assert forall|a: int, b: int| 0 <= a < b < new_tail.len() implies
                spec_estimate_move_value(new_tail[a]) >= spec_estimate_move_value(
                new_tail[b],
            ) by {
                let kk = k as int;
                if a < kk && b < kk {
                    assert(new_tail[a] == old_tail[a] && new_tail[b] == old_tail[b]);
                } else if a < kk && b == kk {
                    assert(new_tail[a] == old_tail[a] && new_tail[b] == x);
                } else if a < kk && b > kk {
                    assert(new_tail[a] == old_tail[a] && new_tail[b] == old_tail[b - 1]);
                } else if a == kk && b > kk {
                    assert(new_tail[a] == x && new_tail[b] == old_tail[b - 1]);
                    if kk < old_tail.len() {
                        assert(spec_estimate_move_value(x) > spec_estimate_move_value(
                            old_tail[kk],
                        ) || spec_estimate_move_value(x) >= spec_estimate_move_value(
                            old_tail[kk],
                        ));
                        if b - 1 > kk {
                            assert(spec_estimate_move_value(old_tail[kk])
                                >= spec_estimate_move_value(old_tail[b - 1]));
                        }
                    }
                } else if a > kk {
                    assert(new_tail[a] == old_tail[a - 1] && new_tail[b] == old_tail[b - 1]);
                }
            }
            assert(targets_in_range(new_tail)) by {
                assert(forall|j: int|
                    0 <= j < new_tail.len() ==> #[trigger] new_tail[j] == x || old_tail.contains(
                        new_tail[j],
                    ));
                assert forall|j: int| 0 <= j < new_tail.len() implies coord_in_range(
                    (#[trigger] new_tail[j]).to,
                ) by {
                    if new_tail[j] != x {
                        let t = choose|t: int|
                            0 <= t < old_tail.len() && #[trigger] old_tail[t] == new_tail[j];
                    }
                }
            }
            let left = old_tail.subrange(0, k as int);
            let right = old_tail.subrange(k as int, old_tail.len() as int);
            lemma_multiset_commutative(left.push(x), right);
            lemma_multiset_commutative(left, right);
            assert(left + right =~= old_tail);
            assert(new_tail.to_multiset() =~= old_tail.to_multiset().insert(x));
            assert(input.subrange(start as int, i + 1 as int) =~= input.subrange(
                start as int,
                i as int,
            ).push(x));
            // Stability: the insertion point sits after every at-least-as-good
            // entry, so each estimate class grows only at its end.
            let xv = spec_estimate_move_value(x);
            lemma_stable_insert(old_tail, x, k as int);
            assert forall|v: int| #[trigger] same_estimate_class(new_tail, v)
                == same_estimate_class(input.subrange(start as int, i + 1 as int), v) by {
                let pred = est_is(v);
                assert(same_estimate_class(old_tail, v) == same_estimate_class(
                    input.subrange(start as int, i as int),
                    v,
                ));
                lemma_filter_push(input.subrange(start as int, i as int), x, pred);
                assert(pred(x) == (v == xv));
                assert(same_estimate_class(new_tail, v) == (if v == xv {
                    same_estimate_class(old_tail, v).push(x)
                } else {
                    same_estimate_class(old_tail, v)
                }));
            }
        }
        i = i + 1;
    }
    // Write back: unchanged prefix, then the ordered tail.
    let mut result: Vec<Move> = Vec::new();
    let mut j: usize = 0;
    while j < start
        invariant
            j <= start <= input.len(),
            moves@ == input,
            result@ == input.subrange(0, j as int),
        decreases start - j,
    {
        let m = moves[j];
        result.push(m);
        proof {
            assert(result@ =~= input.subrange(0, j + 1 as int));
        }
        j = j + 1;
    }
    let mut t: usize = 0;
    let tail_len = sorted_tail.len();
    while t < tail_len
        invariant
            t <= tail_len == sorted_tail@.len(),
            result@ == input.subrange(0, start as int) + sorted_tail@.subrange(0, t as int),
        decreases tail_len - t,
    {
        let m = sorted_tail[t];
        result.push(m);
        proof {
            assert(result@ =~= input.subrange(0, start as int) + sorted_tail@.subrange(
                0,
                t + 1 as int,
            ));
        }
        t = t + 1;
    }
    proof {
        assert(sorted_tail@.subrange(0, sorted_tail@.len() as int) =~= sorted_tail@);
        assert(input.subrange(start as int, input.len() as int).to_multiset().len()
            == input.subrange(start as int, input.len() as int).len());
        assert(input.subrange(start as int, n as int) =~= input.subrange(
            start as int,
            input.len() as int,
        ));
    }
    *moves = result;
    proof {
        assert(moves@.subrange(0, start as int) =~= input.subrange(0, start as int));
        assert(moves@.skip(start as int) =~= sorted_tail@);
        assert(input.subrange(start as int, n as int) =~= input.skip(start as int));
        assert(forall|v: int|
            #[trigger] same_estimate_class(moves@.skip(start as int), v) == same_estimate_class(
                input.skip(start as int),
                v,
            ));
        assert(moves@.len() == input.len()) by {
            assert(sorted_tail@.to_multiset().len() == sorted_tail@.len());
            assert(input.skip(start as int).to_multiset().len() == input.skip(
                start as int,
            ).len());
            assert(input.subrange(start as int, n as int) =~= input.skip(start as int));
        }
        assert(targets_in_range(moves@)) by {
            assert forall|idx: int| 0 <= idx < moves@.len() implies coord_in_range(
                (#[trigger] moves@[idx]).to,
            ) by {
                if idx < start {
                    assert(moves@[idx] == input[idx]);
                } else {
                    assert(moves@[idx] == sorted_tail@[idx - start]);
                }
            }
        }
    }
}

/// Sort moves by estimated value, best first.
pub fn order_moves(moves: &mut Vec<Move>)
    requires
        targets_in_range(old(moves)@),
    ensures
        final(moves)@.len() == old(moves)@.len(),
        sorted_desc(final(moves)@),
        final(moves)@.to_multiset() == old(moves)@.to_multiset(),
        forall|v: int|
            #[trigger] same_estimate_class(final(moves)@, v) == same_estimate_class(
                old(moves)@,
                v,
            ),
        targets_in_range(final(moves)@),
{
    order_moves_suffix(moves, 0);
    proof {
        assert(moves@.skip(0) =~= moves@);
        assert(old(moves)@.skip(0) =~= old(moves)@);
    }
}

/// A tactical move captures or promotes.
pub open spec fn spec_is_tactical(m: Move) -> bool {
    m.captured is Some || m.promotion is Some
}

/// Check if a move is a capture or promotion.
pub fn is_tactical_move(mv: &Move) -> (r: bool)
    ensures
        r == spec_is_tactical(*mv),
{
    mv.captured.is_some() || mv.promotion.is_some()
}

/// Generate only the tactical legal moves (captures and promotions).
pub fn generate_tactical_moves(board: &BoardState, color: Color) -> (moves: Vec<Move>)
    requires
        board_wf(board@),
    ensures
        moves@ == spec_all_legal_moves(board@, color).filter(|m: Move| spec_is_tactical(m)),
{
    let all = generate_all_legal_moves(board, color);
    let ghost alls = spec_all_legal_moves(board@, color);
    let mut moves: Vec<Move> = Vec::new();
    let mut i: usize = 0;
    while i < all.len()
        invariant
            i <= alls.len(),
            all@ == alls,
            moves@ == alls.subrange(0, i as int).filter(|m: Move| spec_is_tactical(m)),
        decreases all.len() - i,
    {
        let m = all[i];
        proof {
            assert(alls.subrange(0, i + 1 as int).drop_last() =~= alls.subrange(0, i as int));
            reveal_with_fuel(Seq::filter, 2);
        }
        if is_tactical_move(&m) {
            moves.push(m);
        }
        i = i + 1;
    }
    proof {
        assert(alls.subrange(0, alls.len() as int) =~= alls);
    }
    moves
}

/// Minimum of two mathematical integers.
pub open spec fn spec_min(a: int, b: int) -> int {
    if a < b {
        a
    } else {
        b
    }
}

/// Maximum of two mathematical integers.
pub open spec fn spec_max(a: int, b: int) -> int {
    if a < b {
        b
    } else {
        a
    }
}

/// The side whose turn a maximizing flag denotes.
pub open spec fn side_of(maximizing: bool) -> Color {
    if maximizing {
        Color::White
    } else {
        Color::Black
    }
}

/// All moves a legal move list produces have in-range destinations and can
/// be applied to the board.
proof fn lemma_legal_list_usable(b: Seq<Option<crate::piece::Piece>>, color: Color)
    requires
        board_wf(b),
    ensures
        targets_in_range(spec_all_legal_moves(b, color)),
        forall|i: int|
            0 <= i < spec_all_legal_moves(b, color).len() ==> {
                let m = #[trigger] spec_all_legal_moves(b, color)[i];
                &&& crate::hex::cell_in_box(m.from)
                &&& crate::hex::spec_valid_cell(m.to.q as int, m.to.r as int)
                &&& piece_wf(m.piece)
            },
{
    lemma_all_legal_moves_shape(b, color, 0);
}

/// Tactical move lists inherit the same usability.
proof fn lemma_tactical_list_usable(b: Seq<Option<crate::piece::Piece>>, color: Color)
    requires
        board_wf(b),
    ensures
        ({
            let tact = spec_all_legal_moves(b, color).filter(|m: Move| spec_is_tactical(m));
            &&& targets_in_range(tact)
            &&& forall|i: int|
                0 <= i < tact.len() ==> {
                    let m = #[trigger] tact[i];
                    &&& crate::hex::cell_in_box(m.from)
                    &&& crate::hex::spec_valid_cell(m.to.q as int, m.to.r as int)
                    &&& piece_wf(m.piece)
                }
        }),
{
    lemma_all_legal_moves_shape(b, color, 0);
    let alls = spec_all_legal_moves(b, color);
    let pred = |m: Move| spec_is_tactical(m);
    let tact = alls.filter(pred);
    lemma_filter_subset(alls, pred);
    assert forall|i: int| 0 <= i < tact.len() implies {
        let m = #[trigger] tact[i];
        &&& coord_in_range(m.to)
        &&& crate::hex::cell_in_box(m.from)
        &&& crate::hex::spec_valid_cell(m.to.q as int, m.to.r as int)
        &&& piece_wf(m.piece)
    } by {
        let m = tact[i];
        assert(tact.contains(m)) by {
            assert(tact[i] == m);
        }
        assert(alls.contains(m));
        let j = choose|j: int| 0 <= j < alls.len() && alls[j] == m;
    }
}

/// Multiset-preserving reordering keeps usability.
proof fn lemma_multiset_usable(a: Seq<Move>, b: Seq<Move>)
    requires
        a.to_multiset() == b.to_multiset(),
        forall|i: int|
            0 <= i < a.len() ==> {
                let m = #[trigger] a[i];
                &&& crate::hex::cell_in_box(m.from)
                &&& crate::hex::spec_valid_cell(m.to.q as int, m.to.r as int)
                &&& piece_wf(m.piece)
            },
    ensures
        forall|i: int|
            0 <= i < b.len() ==> {
                let m = #[trigger] b[i];
                &&& crate::hex::cell_in_box(m.from)
                &&& crate::hex::spec_valid_cell(m.to.q as int, m.to.r as int)
                &&& piece_wf(m.piece)
            },
{
    assert forall|i: int| 0 <= i < b.len() implies {
        let m = #[trigger] b[i];
        &&& crate::hex::cell_in_box(m.from)
        &&& crate::hex::spec_valid_cell(m.to.q as int, m.to.r as int)
        &&& piece_wf(m.piece)
    } by {
        let m = b[i];
        assert(b.contains(m)) by {
            assert(b[i] == m);
        }
        assert(b.to_multiset().count(m) > 0);
        assert(a.to_multiset().count(m) > 0);
        assert(a.contains(m));
        let j = choose|j: int| 0 <= j < a.len() && a[j] == m;
    }
}

/// Quiescence search: extend through captures and promotions until the
/// position is quiet, within fail-hard bounds.
#[verifier::rlimit(100)]
pub fn quiescence_search(
    board: &BoardState,
    alpha: i32,
    beta: i32,
    maximizing: bool,
    stats: &mut SearchStats,
    q_depth: i32,
) -> (score: i32)
    requires
        board_wf(board@),
        alpha <= beta,
        0 <= q_depth <= MAX_QUIESCENCE_DEPTH,
    ensures
        maximizing ==> spec_min(beta as int, spec_evaluate(board@)) <= score <= beta,
        !maximizing ==> alpha <= score <= spec_max(alpha as int, spec_evaluate(board@)),
        q_depth == MAX_QUIESCENCE_DEPTH ==> score == (if maximizing {
            spec_min(beta as int, spec_evaluate(board@))
        } else {
            spec_max(alpha as int, spec_evaluate(board@))
        }),
        final(stats).nodes_searched >= 1,
        final(stats).nodes_searched >= old(stats).nodes_searched,
        final(stats).quiescence_nodes >= 1,
        final(stats).quiescence_nodes >= old(stats).quiescence_nodes,
        final(stats).max_depth_reached == old(stats).max_depth_reached,
    decreases MAX_QUIESCENCE_DEPTH - q_depth, 1int,
{
    bump(&mut stats.nodes_searched);
    bump(&mut stats.quiescence_nodes);
    let mut alpha = alpha;
    let mut beta = beta;
    // Stand pat: the evaluation when declining every tactical move.
    let stand_pat = evaluate_position(board);
    if maximizing {
        if stand_pat >= beta {
            return beta;
        }
        if stand_pat > alpha {
            alpha = stand_pat;
        }
    } else {
        if stand_pat <= alpha {
            return alpha;
        }
        if stand_pat < beta {
            beta = stand_pat;
        }
    }
    if q_depth >= MAX_QUIESCENCE_DEPTH {
        return stand_pat;
    }
    let color = if maximizing {
        Color::White
    } else {
        Color::Black
    };
    let mut tactical_moves = generate_tactical_moves(board, color);
    if tactical_moves.len() == 0 {
        return stand_pat;
    }
    proof {
        lemma_tactical_list_usable(board@, color);
    }
    let ghost pre_order = tactical_moves@;
    order_moves(&mut tactical_moves);
    proof {
        lemma_multiset_usable(pre_order, tactical_moves@);
    }
    let n = tactical_moves.len();
    let mut i: usize = 0;
    if maximizing {
        while i < n
            invariant
                board_wf(board@),
                n == tactical_moves@.len(),
                i <= n,
                alpha <= beta,
                alpha >= spec_min(beta as int, spec_evaluate(board@)),
                forall|k: int|
                    0 <= k < tactical_moves@.len() ==> {
                        let m = #[trigger] tactical_moves@[k];
                        &&& crate::hex::cell_in_box(m.from)
                        &&& crate::hex::spec_valid_cell(m.to.q as int, m.to.r as int)
                        &&& piece_wf(m.piece)
                    },
                0 <= q_depth < MAX_QUIESCENCE_DEPTH,
                old(stats).nodes_searched <= stats.nodes_searched,
                stats.nodes_searched >= 1,
                old(stats).quiescence_nodes <= stats.quiescence_nodes,
                stats.quiescence_nodes >= 1,
                stats.max_depth_reached == old(stats).max_depth_reached,
            decreases n - i,
        {
            let mv = tactical_moves[i];
            let new_board = apply_move(board, &mv);
            let score = quiescence_search(&new_board, alpha, beta, false, stats, q_depth + 1);
            if score >= beta {
                bump(&mut stats.cutoffs);
                return beta;
            }
            if score > alpha {
                alpha = score;
            }
            i = i + 1;
        }
        alpha
    } else {
        while i < n
            invariant
                board_wf(board@),
                n == tactical_moves@.len(),
                i <= n,
                alpha <= beta,
                beta <= spec_max(alpha as int, spec_evaluate(board@)),
                forall|k: int|
                    0 <= k < tactical_moves@.len() ==> {
                        let m = #[trigger] tactical_moves@[k];
                        &&& crate::hex::cell_in_box(m.from)
                        &&& crate::hex::spec_valid_cell(m.to.q as int, m.to.r as int)
                        &&& piece_wf(m.piece)
                    },
                0 <= q_depth < MAX_QUIESCENCE_DEPTH,
                old(stats).nodes_searched <= stats.nodes_searched,
                stats.nodes_searched >= 1,
                old(stats).quiescence_nodes <= stats.quiescence_nodes,
                stats.quiescence_nodes >= 1,
                stats.max_depth_reached == old(stats).max_depth_reached,
            decreases n - i,
        {
            let mv = tactical_moves[i];
            let new_board = apply_move(board, &mv);
            let score = quiescence_search(&new_board, alpha, beta, true, stats, q_depth + 1);
            if score <= alpha {
                bump(&mut stats.cutoffs);
                return alpha;
            }
            if score < beta {
                beta = score;
            }
            i = i + 1;
        }
        beta
    }
}

/// The bound flag recorded for a finished node: an upper bound when the
/// best score never rose above the window's floor, a lower bound when it
/// reached the ceiling, else exact.
pub open spec fn spec_bound_flag(score: int, alpha: int, beta: int) -> TTEntryType {
    if score <= alpha {
        TTEntryType::Upper
    } else if score >= beta {
        TTEntryType::Lower
    } else {
        TTEntryType::Exact
    }
}

/// The exact score of a position with no legal moves: a depth-biased mate
/// score in check, zero otherwise.
pub open spec fn spec_terminal_score(
    b: Seq<Option<crate::piece::Piece>>,
    depth: int,
    maximizing: bool,
) -> int {
    if spec_in_check(b, side_of(maximizing)) {
        if maximizing {
            -100000 + depth
        } else {
            100000 - depth
        }
    } else {
        0
    }
}

/// Alpha-beta search with transposition table. On a position with no legal
/// moves and no usable table entry, the result is exactly the mate or
/// stalemate score; on a quiet leaf without quiescence it is exactly the
/// static evaluation.
#[verifier::rlimit(100)]
pub fn alpha_beta(
    board: &BoardState,
    depth: i32,
    alpha: i32,
    beta: i32,
    maximizing: bool,
    stats: &mut SearchStats,
    tt: &mut TranspositionTable,
    use_quiescence: bool,
) -> (score: i32)
    requires
        board_wf(board@),
        old(tt).wf(),
        0 <= depth <= MAX_SEARCH_DEPTH,
        alpha <= beta,
    ensures
        final(tt).wf(),
        final(tt).capacity() == old(tt).capacity(),
        final(stats).nodes_searched >= 1,
        final(stats).nodes_searched >= old(stats).nodes_searched,
        final(stats).max_depth_reached == old(stats).max_depth_reached,
        ({
            let probed = spec_probe(old(tt).entries(), spec_board_key(board@));
            let fresh = match probed {
                Some(e) => e.depth < depth,
                None => true,
            };
            &&& (fresh && spec_all_legal_moves(board@, side_of(maximizing)).len() == 0 ==> score
                == spec_terminal_score(board@, depth as int, maximizing))
            &&& (fresh && spec_all_legal_moves(board@, side_of(maximizing)).len() > 0 && depth == 0
                && !use_quiescence ==> score == spec_evaluate(board@))
            &&& (fresh && spec_all_legal_moves(board@, side_of(maximizing)).len() > 0 && depth > 0
                ==> {
                let k = spec_board_key(board@);
                let stored = final(tt).entries();
                &&& stored.contains_key(k)
                &&& stored[k].depth >= depth
                &&& (stored[k].depth == depth ==> stored[k].score == score
                    && stored[k].entry_type == spec_bound_flag(
                    score as int,
                    alpha as int,
                    beta as int,
                ))
            })
        }),
    decreases depth, 0int,
{
    bump(&mut stats.nodes_searched);
    let mut alpha = alpha;
    let mut beta = beta;
    let original_alpha = alpha;
    let original_beta = beta;
    let color = if maximizing {
        Color::White
    } else {
        Color::Black
    };
    let in_check = is_in_check(board, color);
    // Probe the transposition table.
    let probed = tt.probe(board);
    if let Some(tt_entry) = probed {
        if tt_entry.depth >= depth {
            bump(&mut stats.tt_hits);
            match tt_entry.entry_type {
                TTEntryType::Exact => {
                    return tt_entry.score;
                },
                TTEntryType::Lower => {
                    if tt_entry.score > alpha {
                        alpha = tt_entry.score;
                    }
                },
                TTEntryType::Upper => {
                    if tt_entry.score < beta {
                        beta = tt_entry.score;
                    }
                },
            }
            if alpha >= beta {
                return tt_entry.score;
            }
        }
    }
    let mut moves = generate_all_legal_moves(board, color);
    // Terminal positions: checkmate scores prefer nearer mates.
    if moves.len() == 0 {
        if in_check {
            return if maximizing {
                -CHECKMATE_VALUE + depth
            } else {
                CHECKMATE_VALUE - depth
            };
        } else {
            return STALEMATE_VALUE;
        }
    }
    if depth == 0 {
        if use_quiescence {
            return quiescence_search(board, alpha, beta, maximizing, stats, 0);
        }
        return evaluate_position(board);
    }
    proof {
        lemma_legal_list_usable(board@, color);
    }
    // Order moves, trying the table's best move first when there is one.
    let tt_best_move: Option<Move> = match probed {
        Some(e) => e.best_move,
        None => None,
    };
    let ghost pre_order = moves@;
    match tt_best_move {
        Some(best) => {
            let mut idx: usize = 0;
            let mut found = false;
            let n = moves.len();
            while idx < n && !found
                invariant
                    idx <= n == moves@.len(),
                    moves@ == pre_order,
                    found ==> idx < n,
                decreases n - idx + (if found {
                    0int
                } else {
                    1int
                }),
            {
                let m = moves[idx];
                if m.from.q == best.from.q && m.from.r == best.from.r && m.to.q == best.to.q
                    && m.to.r == best.to.r {
                    found = true;
                } else {
                    idx = idx + 1;
                }
            }
            if found {
                let first = moves[0];
                let chosen = moves[idx];
                moves.set(0, chosen);
                moves.set(idx, first);
                proof {
                    assert(moves@.to_multiset() =~= pre_order.to_multiset()) by {
                        if idx == 0 {
                            assert(moves@ =~= pre_order);
                        } else {
                            let m1 = pre_order.update(0, chosen);
                            assert(moves@ =~= m1.update(idx as int, first));
                            assert(pre_order.to_multiset().count(first) > 0) by {
                                assert(pre_order.contains(first)) by {
                                    assert(pre_order[0] == first);
                                }
                            }
                            assert(pre_order.to_multiset().count(chosen) > 0) by {
                                assert(pre_order.contains(chosen)) by {
                                    assert(pre_order[idx as int] == chosen);
                                }
                            }
                            assert(m1.to_multiset() =~= pre_order.to_multiset().insert(
                                chosen,
                            ).remove(first));
                            assert(m1[idx as int] == chosen);
                            assert(moves@.to_multiset() =~= m1.to_multiset().insert(
                                first,
                            ).remove(chosen));
                        }
                    }
                    lemma_multiset_usable(pre_order, moves@);
                    assert(targets_in_range(moves@)) by {
                        assert forall|k: int| 0 <= k < moves@.len() implies coord_in_range(
                            (#[trigger] moves@[k]).to,
                        ) by {}
                    }
                }
                let ghost mid = moves@;
                order_moves_suffix(&mut moves, 1);
                proof {
                    lemma_multiset_usable(mid.skip(1), moves@.skip(1));
                    assert(moves@[0] == mid[0]) by {
                        assert(moves@.subrange(0, 1) =~= mid.subrange(0, 1));
                        assert(moves@.subrange(0, 1)[0] == moves@[0]);
                    }
                    assert forall|k: int| 0 <= k < moves@.len() implies {
                        let m = #[trigger] moves@[k];
                        &&& crate::hex::cell_in_box(m.from)
                        &&& crate::hex::spec_valid_cell(m.to.q as int, m.to.r as int)
                        &&& piece_wf(m.piece)
                    } by {
                        if k > 0 {
                            assert(moves@[k] == moves@.skip(1)[k - 1]);
                        }
                    }
                }
            } else {
                order_moves(&mut moves);
                proof {
                    lemma_multiset_usable(pre_order, moves@);
                }
            }
        },
        None => {
            order_moves(&mut moves);
            proof {
                lemma_multiset_usable(pre_order, moves@);
            }
        },
    }
    let mut best_move: Option<Move> = None;
    let n = moves.len();
    let mut i: usize = 0;
    if maximizing {
        let mut max_eval: i32 = -CHECKMATE_VALUE - 1;
        while i < n
            invariant
                board_wf(board@),
                tt.wf(),
                tt.capacity() == old(tt).capacity(),
                n == moves@.len(),
                i <= n,
                alpha <= beta,
                0 < depth <= MAX_SEARCH_DEPTH,
                stats.nodes_searched >= 1,
                stats.nodes_searched >= old(stats).nodes_searched,
                stats.max_depth_reached == old(stats).max_depth_reached,
                forall|k: int|
                    0 <= k < moves@.len() ==> {
                        let m = #[trigger] moves@[k];
                        &&& crate::hex::cell_in_box(m.from)
                        &&& crate::hex::spec_valid_cell(m.to.q as int, m.to.r as int)
                        &&& piece_wf(m.piece)
                    },
            decreases n - i,
        {
            let mv = moves[i];
            let new_board = apply_move(board, &mv);
            let eval_score = alpha_beta(
                &new_board,
                depth - 1,
                alpha,
                beta,
                false,
                stats,
                tt,
                use_quiescence,
            );
            if eval_score > max_eval {
                max_eval = eval_score;
                best_move = Some(mv);
            }
            if eval_score > alpha {
                alpha = eval_score;
            }
            if beta <= alpha {
                bump(&mut stats.cutoffs);
                break;
            }
            i = i + 1;
        }
        // The recorded bound compares against the window the node was
        // given, per the store rule.
        let tt_type = if max_eval <= original_alpha {
            TTEntryType::Upper
        } else if max_eval >= original_beta {
            TTEntryType::Lower
        } else {
            TTEntryType::Exact
        };
        tt.store(board, depth, max_eval, tt_type, best_move);
        max_eval
    } else {
        let mut min_eval: i32 = CHECKMATE_VALUE + 1;
        while i < n
            invariant
                board_wf(board@),
                tt.wf(),
                tt.capacity() == old(tt).capacity(),
                n == moves@.len(),
                i <= n,
                alpha <= beta,
                0 < depth <= MAX_SEARCH_DEPTH,
                stats.nodes_searched >= 1,
                stats.nodes_searched >= old(stats).nodes_searched,
                stats.max_depth_reached == old(stats).max_depth_reached,
                forall|k: int|
                    0 <= k < moves@.len() ==> {
                        let m = #[trigger] moves@[k];
                        &&& crate::hex::cell_in_box(m.from)
                        &&& crate::hex::spec_valid_cell(m.to.q as int, m.to.r as int)
                        &&& piece_wf(m.piece)
                    },
            decreases n - i,
        {
            let mv = moves[i];
            let new_board = apply_move(board, &mv);
            let eval_score = alpha_beta(
                &new_board,
                depth - 1,
                alpha,
                beta,
                true,
                stats,
                tt,
                use_quiescence,
            );
            if eval_score < min_eval {
                min_eval = eval_score;
                best_move = Some(mv);
            }
            if eval_score < beta {
                beta = eval_score;
            }
            if beta <= alpha {
                bump(&mut stats.cutoffs);
                break;
            }
            i = i + 1;
        }
        let tt_type = if min_eval <= original_alpha {
            TTEntryType::Upper
        } else if min_eval >= original_beta {
            TTEntryType::Lower
        } else {
            TTEntryType::Exact
        };
        tt.store(board, depth, min_eval, tt_type, best_move);
        min_eval
    }
}

/// Find the best move for `color` by searching every legal move to the
/// given depth. The returned move, when present, is one of the position's
/// legal moves; with no legal moves the result carries no move and score 0.
#[verifier::rlimit(100)]
pub fn find_best_move(
    board: &BoardState,
    color: Color,
    depth: i32,
    tt: &mut TranspositionTable,
    use_quiescence: bool,
) -> (result: SearchResult)
    requires
        board_wf(board@),
        old(tt).wf(),
        1 <= depth <= MAX_SEARCH_DEPTH,
    ensures
        final(tt).wf(),
        final(tt).capacity() == old(tt).capacity(),
        match result.best_move {
            Some(m) => spec_all_legal_moves(board@, color).contains(m)
                && result.stats.nodes_searched >= 1,
            None => spec_all_legal_moves(board@, color).len() == 0 && result.score == 0,
        },
        spec_all_legal_moves(board@, color).len() > 0 <==> result.best_move is Some,
        result.stats.max_depth_reached == depth,
        spec_all_legal_moves(board@, color).len() > 0 ==> {
            let k = spec_board_key(board@);
            let stored = final(tt).entries();
            &&& stored.contains_key(k)
            &&& stored[k].depth >= depth
            &&& (stored[k].depth == depth ==> stored[k].score == result.score
                && stored[k].entry_type == TTEntryType::Exact && stored[k].best_move
                == result.best_move)
        },
{
    let mut stats = SearchStats::new();
    stats.max_depth_reached = depth;
    let mut moves = generate_all_legal_moves(board, color);
    let ghost legal = spec_all_legal_moves(board@, color);
    if moves.len() == 0 {
        return SearchResult { best_move: None, score: 0, stats };
    }
    proof {
        lemma_legal_list_usable(board@, color);
    }
    let maximizing = matches!(color, Color::White);
    // Order moves, with the table's remembered best move first.
    let ghost pre_order = moves@;
    let tt_best: Option<Move> = match tt.probe(board) {
        Some(e) => e.best_move,
        None => None,
    };
    match tt_best {
        Some(best) => {
            let mut idx: usize = 0;
            let mut found = false;
            let n = moves.len();
            while idx < n && !found
                invariant
                    idx <= n == moves@.len(),
                    moves@ == pre_order,
                    found ==> idx < n,
                decreases n - idx + (if found {
                    0int
                } else {
                    1int
                }),
            {
                let m = moves[idx];
                if m.from.q == best.from.q && m.from.r == best.from.r && m.to.q == best.to.q
                    && m.to.r == best.to.r {
                    found = true;
                } else {
                    idx = idx + 1;
                }
            }
            if found {
                let first = moves[0];
                let chosen = moves[idx];
                moves.set(0, chosen);
                moves.set(idx, first);
                proof {
                    assert(moves@.to_multiset() =~= pre_order.to_multiset()) by {
                        if idx == 0 {
                            assert(moves@ =~= pre_order);
                        } else {
                            let m1 = pre_order.update(0, chosen);
                            assert(moves@ =~= m1.update(idx as int, first));
                            assert(pre_order.to_multiset().count(first) > 0) by {
                                assert(pre_order.contains(first)) by {
                                    assert(pre_order[0] == first);
                                }
                            }
                            assert(pre_order.to_multiset().count(chosen) > 0) by {
                                assert(pre_order.contains(chosen)) by {
                                    assert(pre_order[idx as int] == chosen);
                                }
                            }
                            assert(m1.to_multiset() =~= pre_order.to_multiset().insert(
                                chosen,
                            ).remove(first));
                            assert(m1[idx as int] == chosen);
                            assert(moves@.to_multiset() =~= m1.to_multiset().insert(
                                first,
                            ).remove(chosen));
                        }
                    }
                    lemma_multiset_usable(pre_order, moves@);
                }
                let ghost mid = moves@;
                order_moves_suffix(&mut moves, 1);
                proof {
                    lemma_multiset_usable(mid.skip(1), moves@.skip(1));
                    assert(moves@[0] == mid[0]) by {
                        assert(moves@.subrange(0, 1) =~= mid.subrange(0, 1));
                        assert(moves@.subrange(0, 1)[0] == moves@[0]);
                    }
                    assert(moves@.to_multiset() =~= mid.to_multiset()) by {
                        assert(moves@ =~= moves@.subrange(0, 1) + moves@.skip(1));
                        assert(mid =~= mid.subrange(0, 1) + mid.skip(1));
                        lemma_multiset_commutative(moves@.subrange(0, 1), moves@.skip(1));
                        lemma_multiset_commutative(mid.subrange(0, 1), mid.skip(1));
                    }
                    assert forall|k: int| 0 <= k < moves@.len() implies {
                        let m = #[trigger] moves@[k];
                        &&& crate::hex::cell_in_box(m.from)
                        &&& crate::hex::spec_valid_cell(m.to.q as int, m.to.r as int)
                        &&& piece_wf(m.piece)
                        &&& legal.contains(m)
                    } by {
                        if k > 0 {
                            assert(moves@[k] == moves@.skip(1)[k - 1]);
                        }
                        assert(moves@.contains(moves@[k])) by {
                            assert(moves@[k] == moves@[k]);
                        }
                        lemma_contains_from_multiset(legal, pre_order, moves@[k], moves@);
                    }
                }
            } else {
                order_moves(&mut moves);
                proof {
                    lemma_multiset_usable(pre_order, moves@);
                }
            }
        },
        None => {
            order_moves(&mut moves);
            proof {
                lemma_multiset_usable(pre_order, moves@);
            }
        },
    }
    proof {
        assert forall|k: int| 0 <= k < moves@.len() implies legal.contains(
            #[trigger] moves@[k],
        ) by {
            assert(moves@.contains(moves@[k])) by {
                assert(moves@[k] == moves@[k]);
            }
            assert(moves@.to_multiset().count(moves@[k]) > 0);
            assert(legal.to_multiset().count(moves@[k]) > 0);
        }
    }
    let mut best_move: Move = moves[0];
    let mut best_score: i32 = if maximizing {
        -CHECKMATE_VALUE - 1
    } else {
        CHECKMATE_VALUE + 1
    };
    let mut alpha: i32 = -CHECKMATE_VALUE - 1;
    let mut beta: i32 = CHECKMATE_VALUE + 1;
    let n = moves.len();
    let mut i: usize = 0;
    while i < n
        invariant
            board_wf(board@),
            tt.wf(),
            tt.capacity() == old(tt).capacity(),
            n == moves@.len(),
            n > 0,
            i <= n,
            alpha <= beta,
            1 <= depth <= MAX_SEARCH_DEPTH,
            legal == spec_all_legal_moves(board@, color),
            legal.contains(best_move),
            stats.max_depth_reached == depth,
            i > 0 ==> stats.nodes_searched >= 1,
            forall|k: int|
                0 <= k < moves@.len() ==> {
                    let m = #[trigger] moves@[k];
                    &&& crate::hex::cell_in_box(m.from)
                    &&& crate::hex::spec_valid_cell(m.to.q as int, m.to.r as int)
                    &&& piece_wf(m.piece)
                    &&& legal.contains(m)
                },
        decreases n - i,
    {
        let mv = moves[i];
        let new_board = apply_move(board, &mv);
        let eval_score = alpha_beta(
            &new_board,
            depth - 1,
            alpha,
            beta,
            !maximizing,
            &mut stats,
            tt,
            use_quiescence,
        );
        if maximizing {
            if eval_score > best_score {
                best_score = eval_score;
                best_move = mv;
            }
            if eval_score > alpha {
                alpha = eval_score;
            }
        } else {
            if eval_score < best_score {
                best_score = eval_score;
                best_move = mv;
            }
            if eval_score < beta {
                beta = eval_score;
            }
        }
        // A caller-supplied table can hold scores outside the mate window;
        // keep the window ordered in that case.
        if beta < alpha {
            beta = alpha;
        }
        i = i + 1;
    }
    tt.store(board, depth, best_score, TTEntryType::Exact, Some(best_move));
    SearchResult { best_move: Some(best_move), score: best_score, stats }
}

/// Membership transfer along equal multisets.
proof fn lemma_contains_from_multiset(legal: Seq<Move>, a: Seq<Move>, m: Move, b: Seq<Move>)
    requires
        b.contains(m),
        b.to_multiset() == a.to_multiset(),
        forall|k: int| 0 <= k < a.len() ==> legal.contains(#[trigger] a[k]),
    ensures
        legal.contains(m),
{
    broadcast use vstd::seq_lib::group_to_multiset_ensures;

    assert(b.to_multiset().count(m) > 0);
    assert(a.to_multiset().count(m) > 0);
    assert(a.contains(m));
    let j = choose|j: int| 0 <= j < a.len() && a[j] == m;
}

/// Find the best move using iterative deepening under a wall-clock budget:
/// depth 1 always completes, and each deeper iteration starts only while
/// the budget is not exhausted.
pub fn find_best_move_iterative(
    board: &BoardState,
    color: Color,
    max_depth: i32,
    time_limit_ms: u64,
    tt: &mut TranspositionTable,
    use_quiescence: bool,
) -> (result: SearchResult)
    requires
        board_wf(board@),
        old(tt).wf(),
        1 <= max_depth <= MAX_SEARCH_DEPTH,
    ensures
        final(tt).wf(),
        final(tt).capacity() == old(tt).capacity(),
        match result.best_move {
            Some(m) => spec_all_legal_moves(board@, color).contains(m),
            None => spec_all_legal_moves(board@, color).len() == 0 && result.score == 0,
        },
        spec_all_legal_moves(board@, color).len() > 0 <==> result.best_move is Some,
        result.best_move is Some ==> result.stats.nodes_searched >= 1,
        1 <= result.stats.max_depth_reached <= max_depth,
{
    let start_time = instant_now();
    let mut total_nodes: u64 = 0;
    let mut total_cutoffs: u64 = 0;
    let mut total_tt_hits: u64 = 0;
    let mut total_q_nodes: u64 = 0;
    // Depth 1 runs unconditionally so a move is always available.
    let initial_result = find_best_move(board, color, 1, tt, use_quiescence);
    let mut best_result = initial_result;
    total_nodes = total_nodes.saturating_add(initial_result.stats.nodes_searched);
    proof {
        assert(initial_result.best_move is Some ==> total_nodes >= 1);
    }
    total_cutoffs = total_cutoffs.saturating_add(initial_result.stats.cutoffs);
    total_tt_hits = total_tt_hits.saturating_add(initial_result.stats.tt_hits);
    total_q_nodes = total_q_nodes.saturating_add(initial_result.stats.quiescence_nodes);
    let mut depth: i32 = 2;
    while depth <= max_depth
        invariant
            board_wf(board@),
            tt.wf(),
            tt.capacity() == old(tt).capacity(),
            2 <= depth <= MAX_SEARCH_DEPTH + 1,
            max_depth <= MAX_SEARCH_DEPTH,
            match best_result.best_move {
                Some(m) => spec_all_legal_moves(board@, color).contains(m),
                None => spec_all_legal_moves(board@, color).len() == 0 && best_result.score
                    == 0,
            },
            spec_all_legal_moves(board@, color).len() > 0 <==> best_result.best_move is Some,
            best_result.best_move is Some ==> total_nodes >= 1,
            1 <= best_result.stats.max_depth_reached <= max_depth,
        decreases MAX_SEARCH_DEPTH + 1 - depth,
    {
        let elapsed = elapsed_ms(&start_time);
        if elapsed > time_limit_ms {
            break;
        }
        let result = find_best_move(board, color, depth, tt, use_quiescence);
        if result.best_move.is_some() {
            best_result = result;
            best_result.stats.max_depth_reached = depth;
        }
        total_nodes = total_nodes.saturating_add(result.stats.nodes_searched);
        total_cutoffs = total_cutoffs.saturating_add(result.stats.cutoffs);
        total_tt_hits = total_tt_hits.saturating_add(result.stats.tt_hits);
        total_q_nodes = total_q_nodes.saturating_add(result.stats.quiescence_nodes);
        depth = depth + 1;
    }
    best_result.stats.nodes_searched = total_nodes;
    best_result.stats.cutoffs = total_cutoffs;
    best_result.stats.tt_hits = total_tt_hits;
    best_result.stats.quiescence_nodes = total_q_nodes;
    best_result
}

/// Difficulty tiers of the engine.
#[derive(Debug, Clone, Copy, PartialEq, Eq, Structural)]
pub enum AIDifficulty {
    Easy,
    Medium,
    Hard,
}

/// Choose a move for `color`: a loaded tablebase's best move when it
/// resolves the position, otherwise the difficulty tier's search (depth 2
/// without quiescence, depth 4 with it, or iterative deepening to depth 6
/// under a five-second budget). Any returned move is legal in the position.
pub fn get_ai_move(
    board: &BoardState,
    color: Color,
    difficulty: AIDifficulty,
    tt: &mut TranspositionTable,
    registry: &crate::tablebase::TablebaseRegistry,
) -> (result: SearchResult)
    requires
        board_wf(board@),
        old(tt).wf(),
    ensures
        final(tt).wf(),
        match result.best_move {
            Some(m) => spec_all_legal_moves(board@, color).contains(m),
            None => spec_all_legal_moves(board@, color).len() == 0,
        },
        spec_all_legal_moves(board@, color).len() > 0 <==> result.best_move is Some,
        ({
            // A move chosen without searching comes from a loaded tablebase
            // and carries the tablebase score of the position.
            let slot = crate::tablebase::spec_probe_slot(registry.items@, board@, color);
            result.best_move is Some && result.stats.nodes_searched == 0 ==> slot is Some
                && result.score == crate::tablebase::spec_entry_score(
                registry.items@[slot->Some_0.0].entries@[slot->Some_0.1]->Some_0,
            )
        }),
{
    // Perfect play first: use a tablebase verdict when one covers the
    // position and its recorded move is legal here.
    let probe_result = crate::tablebase::probe_tablebase(board, color, registry);
    if probe_result.found {
        if let Some(entry) = probe_result.entry {
            if let Some(best) = entry.best_move {
                let legal = generate_all_legal_moves(board, color);
                let ghost legals = spec_all_legal_moves(board@, color);
                let n = legal.len();
                let mut i: usize = 0;
                while i < n
                    invariant
                        n == legal@.len(),
                        legal@ == legals,
                        i <= n,
                    decreases n - i,
                {
                    let m = legal[i];
                    let promo_match = match (m.promotion, best.promotion) {
                        (None, None) => true,
                        (Some(a), Some(b)) => crate::tablebase::piece_kind_eq(a, b),
                        _ => false,
                    };
                    if m.from.q == best.from_q && m.from.r == best.from_r && m.to.q == best.to_q
                        && m.to.r == best.to_r && promo_match {
                        let score = match crate::tablebase::get_tablebase_score(
                            board,
                            color,
                            registry,
                        ) {
                            Some(v) => v,
                            None => 0,
                        };
                        proof {
                            assert(legals.contains(m)) by {
                                assert(legals[i as int] == m);
                            }
                            assert(legals.len() > 0);
                        }
                        return SearchResult {
                            best_move: Some(m),
                            score,
                            stats: SearchStats::new(),
                        };
                    }
                    i = i + 1;
                }
            }
        }
    }
    match difficulty {
        AIDifficulty::Easy => find_best_move(board, color, 2, tt, false),
        AIDifficulty::Medium => find_best_move(board, color, 4, tt, true),
        AIDifficulty::Hard => find_best_move_iterative(board, color, 6, 5000, tt, true),
    }
}

} // verus!
