//! Position fingerprints: the canonical sorted string of piece tokens
//! "q,r:<color><type><variant?>" joined with commas, and a 64-bit key
//! derived from it for table indexing.

use vstd::prelude::*;
use vstd::relations::sorted_by;
use vstd::relations::total_ordering;
use vstd::seq_lib::lemma_multiset_commutative;
use vstd::seq_lib::lemma_sorted_unique;
use vstd::string::StrSliceExecFns;
use vstd::string::StringExecFns;

use crate::board::BoardState;
use crate::board::board_wf;
use crate::board::slot_q;
use crate::board::slot_r;
use crate::hex::HexCoord;
use crate::keys::spec_coord_key;
use crate::piece::Color;
use crate::piece::LanceVariant;
use crate::piece::Piece;
use crate::piece::PieceType;

verus! {

broadcast use
    vstd::seq_lib::group_to_multiset_ensures,
    vstd::multiset::group_multiset_axioms,
    lemma_multiset_commutative,
;

/// Lexicographic order on character sequences by code point, with a prefix
/// ordered before its extensions.
pub open spec fn lex_leq(a: Seq<char>, b: Seq<char>) -> bool
    decreases a.len(),
{
    if a.len() == 0 {
        true
    } else if b.len() == 0 {
        false
    } else if a[0] == b[0] {
        lex_leq(a.drop_first(), b.drop_first())
    } else {
        (a[0] as u32) < (b[0] as u32)
    }
}

/// The ordering relation as a first-class function.
pub open spec fn lex_leq_fn() -> spec_fn(Seq<char>, Seq<char>) -> bool {
    |a: Seq<char>, b: Seq<char>| lex_leq(a, b)
}

proof fn lemma_lex_refl(a: Seq<char>)
    ensures
        lex_leq(a, a),
    decreases a.len(),
{
    if a.len() > 0 {
        lemma_lex_refl(a.drop_first());
    }
}

proof fn lemma_lex_antisym(a: Seq<char>, b: Seq<char>)
    requires
        lex_leq(a, b),
        lex_leq(b, a),
    ensures
        a == b,
    decreases a.len(),
{
    if a.len() == 0 {
        assert(b.len() == 0);
        assert(a =~= b);
    } else {
        assert(b.len() > 0);
        if a[0] == b[0] {
            lemma_lex_antisym(a.drop_first(), b.drop_first());
            assert(a =~= b) by {
                assert(a.drop_first() =~= b.drop_first());
                assert(forall|i: int|
                    1 <= i < a.len() ==> #[trigger] a[i] == a.drop_first()[i - 1]);
                assert(forall|i: int|
                    1 <= i < b.len() ==> #[trigger] b[i] == b.drop_first()[i - 1]);
            }
        } else {
            assert((a[0] as u32) < (b[0] as u32) && (b[0] as u32) < (a[0] as u32));
            assert(false);
        }
    }
}

proof fn lemma_lex_trans(a: Seq<char>, b: Seq<char>, c: Seq<char>)
    requires
        lex_leq(a, b),
        lex_leq(b, c),
    ensures
        lex_leq(a, c),
    decreases a.len(),
{
    if a.len() == 0 {
    } else {
        assert(b.len() > 0);
        if b.len() > 0 && c.len() > 0 {
            if a[0] == b[0] && b[0] == c[0] {
                lemma_lex_trans(a.drop_first(), b.drop_first(), c.drop_first());
            }
        }
    }
}

proof fn lemma_lex_connected(a: Seq<char>, b: Seq<char>)
    ensures
        lex_leq(a, b) || lex_leq(b, a),
    decreases a.len(),
{
    if a.len() > 0 && b.len() > 0 {
        if a[0] == b[0] {
            lemma_lex_connected(a.drop_first(), b.drop_first());
        } else {
            assert((a[0] as u32) != (b[0] as u32)) by {
                if (a[0] as u32) == (b[0] as u32) {
                    vstd::utf8::char_u32_cast(a[0], a[0] as u32);
                    vstd::utf8::char_u32_cast(b[0], b[0] as u32);
                }
            }
        }
    }
}

/// The lexicographic order is a total order.
pub proof fn lemma_lex_total_ordering()
    ensures
        total_ordering(lex_leq_fn()),
{
    let leq = lex_leq_fn();
    assert forall|a: Seq<char>| #[trigger] leq(a, a) by {
        lemma_lex_refl(a);
    }
    assert forall|a: Seq<char>, b: Seq<char>| #[trigger] leq(a, b) && #[trigger] leq(b, a)
        implies a == b by {
        lemma_lex_antisym(a, b);
    }
    assert forall|a: Seq<char>, b: Seq<char>, c: Seq<char>|
        #[trigger] leq(a, b) && #[trigger] leq(b, c) implies leq(a, c) by {
        lemma_lex_trans(a, b, c);
    }
    assert forall|a: Seq<char>, b: Seq<char>| #[trigger] leq(a, b) || #[trigger] leq(b, a) by {
        lemma_lex_connected(a, b);
    }
}

/// Compare two strings in the lexicographic order.
fn str_lex_leq(a: &str, b: &str) -> (r: bool)
    ensures
        r == lex_leq(a@, b@),
{
    let alen = a.unicode_len();
    let blen = b.unicode_len();
    let mut i: usize = 0;
    proof {
        assert(a@.subrange(0, alen as int) =~= a@);
        assert(b@.subrange(0, blen as int) =~= b@);
    }
    #[verifier::loop_isolation(true)]
    loop
        invariant
            i <= alen == a@.len(),
            i <= blen == b@.len(),
            lex_leq(a@, b@) == lex_leq(
                a@.subrange(i as int, alen as int),
                b@.subrange(i as int, blen as int),
            ),
        ensures
            i <= alen,
            i <= blen,
            lex_leq(a@, b@) == lex_leq(
                a@.subrange(i as int, alen as int),
                b@.subrange(i as int, blen as int),
            ),
            i >= alen || i >= blen || a@[i as int] != b@[i as int],
        decreases alen - i,
    {
        if i >= alen || i >= blen {
            break;
        }
        let ca = a.get_char(i);
        let cb = b.get_char(i);
        if ca != cb {
            break;
        }
        proof {
            let sa = a@.subrange(i as int, alen as int);
            let sb = b@.subrange(i as int, blen as int);
            assert(sa[0] == ca && sb[0] == cb);
            assert(sa.drop_first() =~= a@.subrange(i + 1 as int, alen as int));
            assert(sb.drop_first() =~= b@.subrange(i + 1 as int, blen as int));
        }
        i = i + 1;
    }
    proof {
        assert(a@.subrange(0, alen as int) =~= a@);
        assert(b@.subrange(0, blen as int) =~= b@);
    }
    if i >= alen {
        proof {
            assert(a@.subrange(i as int, alen as int).len() == 0);
        }
        true
    } else if i >= blen {
        false
    } else {
        let ca = a.get_char(i);
        let cb = b.get_char(i);
        proof {
            let sa = a@.subrange(i as int, alen as int);
            let sb = b@.subrange(i as int, blen as int);
            assert(sa[0] == ca && sb[0] == cb);
        }
        (ca as u32) < (cb as u32)
    }
}

/// The one-letter code of a color.
pub open spec fn spec_color_char(c: Color) -> char {
    match c {
        Color::White => 'w',
        Color::Black => 'b',
    }
}

/// The one-letter code of a piece class.
pub open spec fn spec_type_char(pt: PieceType) -> char {
    match pt {
        PieceType::Pawn => 'p',
        PieceType::Knight => 'n',
        PieceType::Lance => 'l',
        PieceType::Chariot => 'c',
        PieceType::Queen => 'q',
        PieceType::King => 'k',
    }
}

/// The variant suffix: "A" or "B" for lances carrying a variant, empty
/// otherwise.
pub open spec fn spec_variant_chars(v: Option<LanceVariant>) -> Seq<char> {
    match v {
        Some(LanceVariant::A) => seq!['A'],
        Some(LanceVariant::B) => seq!['B'],
        None => Seq::empty(),
    }
}

/// The fingerprint token of one piece on one cell.
pub open spec fn spec_token(c: HexCoord, p: Piece) -> Seq<char> {
    spec_coord_key(c) + seq![':'] + seq![spec_color_char(p.color)] + seq![
        spec_type_char(p.piece_type),
    ] + spec_variant_chars(p.variant)
}

/// Render the fingerprint token of one piece.
fn piece_token(c: HexCoord, p: &Piece) -> (s: String)
    ensures
        s@ == spec_token(c, *p),
{
    let mut s = c.to_key();
    s.append(":");
    let color_str = match p.color {
        Color::White => "w",
        Color::Black => "b",
    };
    s.append(color_str);
    let type_str = match p.piece_type {
        PieceType::Pawn => "p",
        PieceType::Knight => "n",
        PieceType::Lance => "l",
        PieceType::Chariot => "c",
        PieceType::Queen => "q",
        PieceType::King => "k",
    };
    s.append(type_str);
    match p.variant {
        Some(LanceVariant::A) => s.append("A"),
        Some(LanceVariant::B) => s.append("B"),
        None => (),
    }
    proof {
        reveal_strlit(":");
        reveal_strlit("w");
        reveal_strlit("b");
        reveal_strlit("p");
        reveal_strlit("n");
        reveal_strlit("l");
        reveal_strlit("c");
        reveal_strlit("q");
        reveal_strlit("k");
        reveal_strlit("A");
        reveal_strlit("B");
        assert(s@ =~= spec_token(c, *p));
    }
    s
}

/// The token views of the occupied cells, scanning slots from `i` upward.
pub open spec fn board_tokens_from(b: Seq<Option<Piece>>, i: int) -> Seq<Seq<char>>
    decreases 81 - i,
{
    if i < 0 || i >= 81 || b.len() != 81 {
        Seq::empty()
    } else {
        (match b[i] {
            Some(p) => seq![
                spec_token(HexCoord { q: slot_q(i) as i32, r: slot_r(i) as i32 }, p),
            ],
            None => Seq::empty(),
        }) + board_tokens_from(b, i + 1)
    }
}

/// The unsorted token list of a board, in grid-slot order.
pub open spec fn spec_board_tokens(b: Seq<Option<Piece>>) -> Seq<Seq<char>> {
    board_tokens_from(b, 0)
}

/// Join token views with comma separators.
pub open spec fn join_tokens(ts: Seq<Seq<char>>) -> Seq<char>
    decreases ts.len(),
{
    if ts.len() == 0 {
        Seq::empty()
    } else if ts.len() == 1 {
        ts[0]
    } else {
        join_tokens(ts.drop_last()) + seq![','] + ts.last()
    }
}

/// The canonical fingerprint of a position: all piece tokens, sorted
/// lexicographically and joined with commas.
pub open spec fn spec_fingerprint(b: Seq<Option<Piece>>) -> Seq<char> {
    join_tokens(spec_board_tokens(b).sort_by(lex_leq_fn()))
}

/// The views of a list of strings.
pub open spec fn views_of(v: Seq<String>) -> Seq<Seq<char>> {
    v.map_values(|s: String| s@)
}

/// Sort tokens into the lexicographic order.
#[verifier::rlimit(100)]
fn sort_tokens(tokens: Vec<String>) -> (r: Vec<String>)
    ensures
        views_of(r@) == views_of(tokens@).sort_by(lex_leq_fn()),
{
    proof {
        lemma_lex_total_ordering();
    }
    let ghost input = views_of(tokens@);
    let mut sorted_vec: Vec<String> = Vec::new();
    let mut i: usize = 0;
    let n = tokens.len();
    proof {
        assert(input.subrange(0, 0) =~= Seq::<Seq<char>>::empty());
        assert(views_of(sorted_vec@) =~= Seq::<Seq<char>>::empty());
        assert(Seq::<Seq<char>>::empty().to_multiset() =~= input.subrange(0, 0).to_multiset());
    }
    while i < n
        invariant
            i <= n == tokens@.len(),
            input == views_of(tokens@),
            views_of(sorted_vec@).to_multiset() == input.subrange(0, i as int).to_multiset(),
            sorted_by(views_of(sorted_vec@), lex_leq_fn()),
            total_ordering(lex_leq_fn()),
        decreases n - i,
    {
        let ghost old_views = views_of(sorted_vec@);
        let tok = tokens[i].clone();
        proof {
            assert(tok@ == input[i as int]);
        }
        // Find the first position whose token is not below `tok`.
        let mut k: usize = 0;
        while k < sorted_vec.len()
            invariant
                k <= sorted_vec@.len(),
                forall|j: int| 0 <= j < k ==> !lex_leq_fn()(tok@, old_views[j]),
                views_of(sorted_vec@) == old_views,
            decreases sorted_vec.len() - k,
        {
            if str_lex_leq(tok.as_str(), sorted_vec[k].as_str()) {
                proof {
                    assert(lex_leq_fn()(tok@, old_views[k as int]));
                }
                break;
            }
            proof {
                assert(!lex_leq_fn()(tok@, old_views[k as int]));
            }
            k = k + 1;
        }
        proof {
            assert(forall|j: int|
                0 <= j < k ==> lex_leq_fn()(old_views[j], tok@));
        }
        sorted_vec.insert(k, tok);
        proof {
            let new_views = views_of(sorted_vec@);
            assert(new_views =~= old_views.subrange(0, k as int).push(tok@) + old_views.subrange(
                k as int,
                old_views.len() as int,
            ));
            // Sortedness is preserved by inserting at the found position.
            assert forall|x: int, y: int| 0 <= x < y < new_views.len() implies #[trigger]
                lex_leq_fn()(new_views[x], new_views[y]) by {
                let leq = lex_leq_fn();
                let kk = k as int;
                if x < kk && y < kk {
                    assert(new_views[x] == old_views[x] && new_views[y] == old_views[y]);
                } else if x < kk && y == kk {
                    assert(new_views[x] == old_views[x] && new_views[y] == tok@);
                } else if x < kk && y > kk {
                    assert(new_views[x] == old_views[x] && new_views[y] == old_views[y - 1]);
                } else if x == kk && y > kk {
                    assert(new_views[x] == tok@ && new_views[y] == old_views[y - 1]);
                    if kk < old_views.len() {
                        assert(leq(tok@, old_views[kk]));
                        if y - 1 > kk {
                            assert(leq(old_views[kk], old_views[y - 1]));
                        }
                    }
                } else if x > kk {
                    assert(new_views[x] == old_views[x - 1] && new_views[y] == old_views[y - 1]);
                }
            }
            // The multiset gains exactly the new token.
            let left = old_views.subrange(0, k as int);
            let right = old_views.subrange(k as int, old_views.len() as int);
            lemma_multiset_commutative(left.push(tok@), right);
            lemma_multiset_commutative(left, right);
            assert(left + right =~= old_views);
            assert(left.push(tok@).to_multiset() =~= left.to_multiset().insert(tok@));
            assert(new_views.to_multiset() =~= old_views.to_multiset().insert(tok@));
            assert(input.subrange(0, i + 1 as int).drop_last() =~= input.subrange(0, i as int));
            assert(input.subrange(0, i + 1 as int).to_multiset() =~= input.subrange(
                0,
                i as int,
            ).to_multiset().insert(tok@)) by {
                let pre = input.subrange(0, i + 1 as int);
                assert(pre =~= input.subrange(0, i as int).push(input[i as int]));
            }
        }
        i = i + 1;
    }
    proof {
        assert(input.subrange(0, n as int) =~= input);
        input.lemma_sort_by_ensures(lex_leq_fn());
        lemma_sorted_unique(views_of(sorted_vec@), input.sort_by(lex_leq_fn()), lex_leq_fn());
    }
    sorted_vec
}

/// Render the canonical fingerprint string of a board: sorted piece tokens
/// joined with commas.
pub fn fingerprint(board: &BoardState) -> (s: String)
    requires
        board_wf(board@),
    ensures
        s@ == spec_fingerprint(board@),
{
    let ghost b = board@;
    let mut tokens: Vec<String> = Vec::new();
    let mut i: usize = 0;
    proof {
        assert(views_of(tokens@) + board_tokens_from(b, 0) =~= spec_board_tokens(b));
    }
    while i < 81
        invariant
            i <= 81,
            views_of(tokens@) + board_tokens_from(b, i as int) == spec_board_tokens(b),
        decreases 81 - i,
    {
        let q: i32 = (i as i32) / 9 - 4;
        let r: i32 = (i as i32) % 9 - 4;
        let coord = HexCoord { q, r };
        proof {
            assert(q == slot_q(i as int) && r == slot_r(i as int));
            assert(crate::board::slot_of(slot_q(i as int), slot_r(i as int)) == i as int)
                by (nonlinear_arith)
                requires
                    0 <= i < 81,
            {}
        }
        if let Some(p) = board.piece_at(coord) {
            let tok = piece_token(coord, &p);
            let ghost before = views_of(tokens@);
            tokens.push(tok);
            proof {
                assert(views_of(tokens@) =~= before.push(tok@));
                assert(views_of(tokens@) + board_tokens_from(b, i + 1 as int)
                    =~= spec_board_tokens(b));
            }
        } else {
            proof {
                assert(views_of(tokens@) + board_tokens_from(b, i + 1 as int)
                    =~= spec_board_tokens(b));
            }
        }
        i = i + 1;
    }
    proof {
        assert(views_of(tokens@) + Seq::<Seq<char>>::empty() =~= views_of(tokens@));
    }
    let sorted_vec = sort_tokens(tokens);
    let ghost sortedv = views_of(sorted_vec@);
    // Join with comma separators.
    let mut out = String::new();
    let mut k: usize = 0;
    proof {
        assert(join_tokens(sortedv.subrange(0, 0)) =~= Seq::<char>::empty());
        assert(out@ =~= join_tokens(sortedv.subrange(0, 0)));
    }
    while k < sorted_vec.len()
        invariant
            k <= sortedv.len() == sorted_vec@.len(),
            sortedv == views_of(sorted_vec@),
            out@ == join_tokens(sortedv.subrange(0, k as int)),
        decreases sorted_vec.len() - k,
    {
        if k > 0 {
            out.append(",");
            proof {
                reveal_strlit(",");
            }
        }
        out.append(sorted_vec[k].as_str());
        proof {
            let pre = sortedv.subrange(0, k + 1 as int);
            assert(pre.drop_last() =~= sortedv.subrange(0, k as int));
            assert(pre.last() == sortedv[k as int]);
            if k == 0 {
                assert(out@ =~= join_tokens(pre));
            } else {
                assert(out@ =~= join_tokens(pre));
            }
        }
        k = k + 1;
    }
    proof {
        assert(sortedv.subrange(0, sortedv.len() as int) =~= sortedv);
    }
    out
}

/// A 64-bit key folded from a character sequence, mixing each character into
/// the accumulator with xor and a multiplicative constant.
pub open spec fn spec_string_key(s: Seq<char>) -> u64
    decreases s.len(),
{
    if s.len() == 0 {
        0xcbf29ce484222325u64
    } else {
        (((spec_string_key(s.drop_last()) ^ (s.last() as u64)) as nat * 0x100000001b3nat)
            % 0x10000000000000000nat) as u64
    }
}

/// The 64-bit table key of a board: the fingerprint folded to a word.
pub open spec fn spec_board_key(b: Seq<Option<Piece>>) -> u64 {
    spec_string_key(spec_fingerprint(b))
}

/// Fold a string into its 64-bit key.
pub fn string_key(s: &str) -> (k: u64)
    ensures
        k == spec_string_key(s@),
{
    let n = s.unicode_len();
    let mut acc: u64 = 0xcbf29ce484222325;
    let mut i: usize = 0;
    while i < n
        invariant
            i <= n == s@.len(),
            acc == spec_string_key(s@.subrange(0, i as int)),
        decreases n - i,
    {
        let c = s.get_char(i);
        proof {
            let pre = s@.subrange(0, i + 1 as int);
            assert(pre.drop_last() =~= s@.subrange(0, i as int));
            assert(pre.last() == c);
        }
        acc = (acc ^ (c as u64)).wrapping_mul(0x100000001b3);
        i = i + 1;
    }
    proof {
        assert(s@.subrange(0, n as int) =~= s@);
    }
    acc
}

/// The 64-bit table key of a board position.
pub fn board_key(board: &BoardState) -> (k: u64)
    requires
        board_wf(board@),
    ensures
        k == spec_board_key(board@),
{
    let fp = fingerprint(board);
    string_key(fp.as_str())
}

} // verus!
