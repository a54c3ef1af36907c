//! Canonical string keys for coordinates: rendering "q,r" and parsing it
//! back, together with verified decimal conversion helpers that the
//! fingerprint and statistics rendering reuse.

use vstd::prelude::*;
use vstd::string::StrSliceExecFns;
use vstd::string::StringExecFns;

use crate::hex::HexCoord;

verus! {

/// The decimal digit character for a value 0..=9.
pub open spec fn digit_char(d: int) -> char {
    if d == 0 {
        '0'
    } else if d == 1 {
        '1'
    } else if d == 2 {
        '2'
    } else if d == 3 {
        '3'
    } else if d == 4 {
        '4'
    } else if d == 5 {
        '5'
    } else if d == 6 {
        '6'
    } else if d == 7 {
        '7'
    } else if d == 8 {
        '8'
    } else {
        '9'
    }
}

/// The numeric value of a decimal digit character, or None.
pub open spec fn digit_val(c: char) -> Option<int> {
    if c == '0' {
        Some(0)
    } else if c == '1' {
        Some(1)
    } else if c == '2' {
        Some(2)
    } else if c == '3' {
        Some(3)
    } else if c == '4' {
        Some(4)
    } else if c == '5' {
        Some(5)
    } else if c == '6' {
        Some(6)
    } else if c == '7' {
        Some(7)
    } else if c == '8' {
        Some(8)
    } else if c == '9' {
        Some(9)
    } else {
        None
    }
}

/// Decimal digits of a nonnegative number, most significant first.
pub open spec fn spec_nat_chars(n: int) -> Seq<char>
    decreases n,
{
    if n < 10 {
        seq![digit_char(n)]
    } else {
        spec_nat_chars(n / 10).push(digit_char(n % 10))
    }
}

/// Decimal rendering of an integer, with a leading '-' when negative.
pub open spec fn spec_int_chars(n: int) -> Seq<char> {
    if n < 0 {
        seq!['-'] + spec_nat_chars(-n)
    } else {
        spec_nat_chars(n)
    }
}

/// The canonical "q,r" key of a coordinate.
pub open spec fn spec_coord_key(c: HexCoord) -> Seq<char> {
    spec_int_chars(c.q as int) + seq![','] + spec_int_chars(c.r as int)
}

/// The decimal digit d as a one-character string slice.
fn digit_str(d: u64) -> (s: &'static str)
    requires
        d < 10,
    ensures
        s@ == seq![digit_char(d as int)],
{
    proof {
        reveal_strlit("0");
        reveal_strlit("1");
        reveal_strlit("2");
        reveal_strlit("3");
        reveal_strlit("4");
        reveal_strlit("5");
        reveal_strlit("6");
        reveal_strlit("7");
        reveal_strlit("8");
        reveal_strlit("9");
    }
    let s = match d {
        0 => "0",
        1 => "1",
        2 => "2",
        3 => "3",
        4 => "4",
        5 => "5",
        6 => "6",
        7 => "7",
        8 => "8",
        _ => "9",
    };
    proof {
        assert(s@ =~= seq![digit_char(d as int)]);
    }
    s
}

/// Append the decimal digits of `n` to `out`.
pub fn append_u64_digits(out: &mut String, n: u64)
    ensures
        final(out)@ == old(out)@ + spec_nat_chars(n as int),
    decreases n,
{
    if n >= 10 {
        append_u64_digits(out, n / 10);
        let d = digit_str(n % 10);
        out.append(d);
        proof {
            assert(out@ =~= old(out)@ + spec_nat_chars(n as int));
        }
    } else {
        let d = digit_str(n);
        out.append(d);
        proof {
            assert(out@ =~= old(out)@ + spec_nat_chars(n as int));
        }
    }
}

/// Append the decimal rendering of `n` to `out`.
pub fn append_i64_digits(out: &mut String, n: i64)
    requires
        i64::MIN < n,
    ensures
        final(out)@ == old(out)@ + spec_int_chars(n as int),
{
    if n < 0 {
        out.append("-");
        proof {
            reveal_strlit("-");
        }
        let ghost mid = out@;
        append_u64_digits(out, (-n) as u64);
        proof {
            assert(mid =~= old(out)@ + seq!['-']);
            assert(out@ =~= old(out)@ + spec_int_chars(n as int));
        }
    } else {
        append_u64_digits(out, n as u64);
    }
}

/// Render a nonnegative number in decimal.
pub fn u64_to_string(n: u64) -> (s: String)
    ensures
        s@ == spec_nat_chars(n as int),
{
    let mut s = String::new();
    append_u64_digits(&mut s, n);
    proof {
        assert(s@ =~= spec_nat_chars(n as int));
    }
    s
}

/// Render an integer in decimal.
pub fn i64_to_string(n: i64) -> (s: String)
    requires
        i64::MIN < n,
    ensures
        s@ == spec_int_chars(n as int),
{
    let mut s = String::new();
    append_i64_digits(&mut s, n);
    proof {
        assert(s@ =~= spec_int_chars(n as int));
    }
    s
}

/// Value of a digit sequence read as a decimal number; meaningful when every
/// character is a digit.
pub open spec fn spec_digits_value(s: Seq<char>) -> int
    decreases s.len(),
{
    if s.len() == 0 {
        0
    } else {
        spec_digits_value(s.drop_last()) * 10 + (match digit_val(s.last()) {
            Some(d) => d,
            None => 0,
        })
    }
}

/// Whether every character of the sequence is a decimal digit.
pub open spec fn all_digits(s: Seq<char>) -> bool {
    forall|i: int| 0 <= i < s.len() ==> (#[trigger] digit_val(s[i])) is Some
}

/// Powers of ten.
pub open spec fn pow10(k: nat) -> int
    decreases k,
{
    if k == 0 {
        1
    } else {
        10 * pow10((k - 1) as nat)
    }
}

proof fn lemma_digits_value_upper(s: Seq<char>)
    requires
        all_digits(s),
    ensures
        0 <= spec_digits_value(s) < pow10(s.len()),
    decreases s.len(),
{
    if s.len() > 0 {
        assert(all_digits(s.drop_last())) by {
            assert(forall|i: int|
                0 <= i < s.len() - 1 ==> s.drop_last()[i] == s[i]);
        }
        lemma_digits_value_upper(s.drop_last());
        let v: int = spec_digits_value(s.drop_last());
        let p: int = pow10((s.len() - 1) as nat);
        assert(v * 10 <= (p - 1) * 10) by (nonlinear_arith)
            requires
                v <= p - 1,
        {}
        assert(v * 10 >= 0) by (nonlinear_arith)
            requires
                v >= 0,
        {}
    }
}

proof fn lemma_digits_value_lower(s: Seq<char>)
    requires
        all_digits(s),
        s.len() >= 1,
        digit_val(s[0]) != Some(0int),
    ensures
        spec_digits_value(s) >= pow10((s.len() - 1) as nat),
    decreases s.len(),
{
    if s.len() == 1 {
    } else {
        assert(all_digits(s.drop_last())) by {
            assert(forall|i: int|
                0 <= i < s.len() - 1 ==> s.drop_last()[i] == s[i]);
        }
        lemma_digits_value_lower(s.drop_last());
        let v: int = spec_digits_value(s.drop_last());
        let p: int = pow10((s.len() - 2) as nat);
        assert(v * 10 >= p * 10) by (nonlinear_arith)
            requires
                v >= p,
        {}
    }
}

proof fn lemma_digits_value_skip_zeros(s: Seq<char>, z: int)
    requires
        all_digits(s),
        0 <= z <= s.len(),
        forall|i: int| 0 <= i < z ==> digit_val(s[i]) == Some(0int),
    ensures
        spec_digits_value(s) == spec_digits_value(s.subrange(z, s.len() as int)),
    decreases s.len(),
{
    if z == 0 {
        assert(s.subrange(0, s.len() as int) =~= s);
    } else if s.len() == z {
        lemma_digits_value_all_zero(s);
        assert(s.subrange(z, s.len() as int) =~= Seq::<char>::empty());
    } else {
        let t = s.drop_last();
        assert(all_digits(t)) by {
            assert(forall|i: int| 0 <= i < t.len() ==> t[i] == s[i]);
        }
        lemma_digits_value_skip_zeros(t, z);
        assert(t.subrange(z, t.len() as int) =~= s.subrange(z, s.len() as int).drop_last());
    }
}

proof fn lemma_digits_value_all_zero(s: Seq<char>)
    requires
        forall|i: int| 0 <= i < s.len() ==> digit_val(s[i]) == Some(0int),
    ensures
        spec_digits_value(s) == 0,
    decreases s.len(),
{
    if s.len() > 0 {
        lemma_digits_value_all_zero(s.drop_last());
    }
}

/// Parse an optionally signed decimal integer that fits in `i32`: an
/// optional '+' or '-' sign, then one or more digits.
pub open spec fn spec_parse_i32(s: Seq<char>) -> Option<int> {
    let negative = s.len() > 0 && s[0] == '-';
    let signed = s.len() > 0 && (s[0] == '-' || s[0] == '+');
    let digits = if signed {
        s.subrange(1, s.len() as int)
    } else {
        s
    };
    if digits.len() == 0 || !all_digits(digits) {
        None
    } else {
        let v: int = if negative {
            -spec_digits_value(digits)
        } else {
            spec_digits_value(digits)
        };
        if i32::MIN <= v <= i32::MAX {
            Some(v)
        } else {
            None
        }
    }
}

/// Parse the substring s[start..end] as a signed decimal `i32`.
#[verifier::loop_isolation(false)]
fn parse_i32_range(s: &str, start: usize, end: usize) -> (r: Option<i32>)
    requires
        start <= end <= s@.len(),
    ensures
        match r {
            Some(v) => spec_parse_i32(s@.subrange(start as int, end as int)) == Some(v as int),
            None => spec_parse_i32(s@.subrange(start as int, end as int)) is None,
        },
{
    let ghost whole = s@.subrange(start as int, end as int);
    if start == end {
        return None;
    }
    let first = s.get_char(start);
    let negative = first == '-';
    let signed = first == '-' || first == '+';
    let dstart: usize = if signed {
        start + 1
    } else {
        start
    };
    let ghost digits = s@.subrange(dstart as int, end as int);
    proof {
        assert(whole.len() == end - start);
        assert(whole[0] == s@[start as int]);
        if signed {
            assert(digits =~= whole.subrange(1, whole.len() as int));
        } else {
            assert(digits =~= whole);
        }
    }
    if dstart == end {
        return None;
    }
    // Every character must be a digit; find where the leading zeros end.
    let mut i: usize = dstart;
    let mut z: usize = dstart;
    let mut zeros_done = false;
    while i < end
        invariant
            dstart <= i <= end <= s@.len(),
            dstart <= z <= i,
            digits == s@.subrange(dstart as int, end as int),
            forall|j: int|
                dstart <= j < i ==> (#[trigger] digit_val(s@[j])) is Some,
            forall|j: int| dstart <= j < z ==> digit_val(s@[j]) == Some(0int),
            zeros_done ==> z < i && digit_val(s@[z as int]) != Some(0int),
            !zeros_done ==> z == i,
        decreases end - i,
    {
        let c = s.get_char(i);
        let dv: Option<u64> = match c {
            '0' => Some(0),
            '1' => Some(1),
            '2' => Some(2),
            '3' => Some(3),
            '4' => Some(4),
            '5' => Some(5),
            '6' => Some(6),
            '7' => Some(7),
            '8' => Some(8),
            '9' => Some(9),
            _ => None,
        };
        if dv.is_none() {
            proof {
                assert(digits[i - dstart] == s@[i as int]);
                assert(!all_digits(digits));
            }
            return None;
        }
        if !zeros_done {
            if c == '0' {
                z = i + 1;
            } else {
                zeros_done = true;
            }
        }
        i = i + 1;
    }
    proof {
        assert(forall|j: int|
            0 <= j < digits.len() ==> digits[j] == s@[dstart + j]);
        assert(all_digits(digits));
    }
    // Skipping leading zeros does not change the value.
    proof {
        lemma_digits_value_skip_zeros(digits, z - dstart);
    }
    let ghost stripped = digits.subrange(z - dstart, digits.len() as int);
    if end - z > 10 {
        // At least 11 significant digits: the value is far outside i32.
        proof {
            assert(forall|j: int|
                0 <= j < stripped.len() ==> stripped[j] == s@[z + j]);
            assert(all_digits(stripped));
            assert(stripped[0] == s@[z as int]);
            lemma_digits_value_lower(stripped);
            assert(pow10((stripped.len() - 1) as nat) >= pow10(10)) by {
                lemma_pow10_monotone(10, (stripped.len() - 1) as nat);
            }
            assert(pow10(10) == 10000000000) by {
                reveal_with_fuel(pow10, 12);
            }
        }
        return None;
    }
    let mut acc: i64 = 0;
    let mut k: usize = z;
    while k < end
        invariant
            z <= k <= end <= s@.len(),
            stripped == digits.subrange(z - dstart, digits.len() as int),
            digits == s@.subrange(dstart as int, end as int),
            dstart <= z,
            end - z <= 10,
            all_digits(stripped),
            acc == spec_digits_value(stripped.subrange(0, k - z)),
            0 <= acc < pow10((k - z) as nat),
        decreases end - k,
    {
        let c = s.get_char(k);
        let d: i64 = match c {
            '0' => 0,
            '1' => 1,
            '2' => 2,
            '3' => 3,
            '4' => 4,
            '5' => 5,
            '6' => 6,
            '7' => 7,
            '8' => 8,
            _ => 9,
        };
        proof {
            assert(stripped[k - z] == s@[k as int]);
            assert(digit_val(s@[k as int]) is Some);
            assert(d == digit_val(s@[k as int])->Some_0);
            assert(stripped.subrange(0, k - z + 1).drop_last() =~= stripped.subrange(0, k - z));
            lemma_pow10_monotone((k - z + 1) as nat, 10);
            assert(pow10(10) == 10000000000) by {
                reveal_with_fuel(pow10, 12);
            }
            let a: int = acc as int;
            let p: int = pow10((k - z) as nat);
            assert(a * 10 + d < p * 10) by (nonlinear_arith)
                requires
                    a < p,
                    d < 10,
                    p >= 1,
            {}
            assert(a * 10 >= 0) by (nonlinear_arith)
                requires
                    a >= 0,
            {}
        }
        acc = acc * 10 + d;
        k = k + 1;
    }
    proof {
        assert(stripped.subrange(0, end - z) =~= stripped);
    }
    let value: i64 = if negative {
        -acc
    } else {
        acc
    };
    if value < -2147483648 || value > 2147483647 {
        return None;
    }
    proof {
        assert(spec_parse_i32(whole) == Some(value as int));
    }
    Some(value as i32)
}

proof fn lemma_pow10_monotone(a: nat, b: nat)
    requires
        a <= b,
    ensures
        pow10(a) <= pow10(b),
        pow10(a) >= 1,
    decreases b,
{
    if b > 0 {
        if a == b {
            lemma_pow10_monotone((a - 1) as nat, (b - 1) as nat);
        } else {
            lemma_pow10_monotone(a, (b - 1) as nat);
        }
    }
}

/// Number of commas in the sequence.
pub open spec fn comma_count(s: Seq<char>) -> int
    decreases s.len(),
{
    if s.len() == 0 {
        0
    } else {
        comma_count(s.drop_last()) + (if s.last() == ',' {
            1int
        } else {
            0int
        })
    }
}

/// Index of the first comma; meaningful when one exists.
pub open spec fn first_comma(s: Seq<char>) -> int {
    choose|i: int| 0 <= i < s.len() && s[i] == ',' && forall|j: int| 0 <= j < i ==> s[j] != ','
}

/// Parse a "q,r" key: exactly one comma separating two signed decimal
/// numbers that fit in `i32`.
pub open spec fn spec_from_key(s: Seq<char>) -> Option<HexCoord> {
    if comma_count(s) != 1 {
        None
    } else {
        let i: int = first_comma(s);
        match (spec_parse_i32(s.subrange(0, i)), spec_parse_i32(
            s.subrange(i + 1, s.len() as int),
        )) {
            (Some(q), Some(r)) => Some(HexCoord { q: q as i32, r: r as i32 }),
            _ => None,
        }
    }
}

proof fn lemma_comma_count_split(s: Seq<char>, i: int)
    requires
        0 <= i <= s.len(),
    ensures
        comma_count(s) == comma_count(s.subrange(0, i)) + comma_count(
            s.subrange(i, s.len() as int),
        ),
    decreases s.len() - i,
{
    if i == s.len() {
        assert(s.subrange(0, i) =~= s);
        assert(s.subrange(i, s.len() as int) =~= Seq::<char>::empty());
    } else {
        lemma_comma_count_split(s.drop_last(), i);
        assert(s.drop_last().subrange(0, i) =~= s.subrange(0, i));
        assert(s.drop_last().subrange(i, s.drop_last().len() as int) =~= s.subrange(
            i,
            s.len() as int,
        ).drop_last());
    }
}

proof fn lemma_comma_count_none(s: Seq<char>)
    requires
        forall|j: int| 0 <= j < s.len() ==> s[j] != ',',
    ensures
        comma_count(s) == 0,
    decreases s.len(),
{
    if s.len() > 0 {
        lemma_comma_count_none(s.drop_last());
    }
}

proof fn lemma_comma_count_nonneg(s: Seq<char>)
    ensures
        comma_count(s) >= 0,
    decreases s.len(),
{
    if s.len() > 0 {
        lemma_comma_count_nonneg(s.drop_last());
    }
}

proof fn lemma_comma_count_pos(s: Seq<char>, i: int)
    requires
        0 <= i < s.len(),
        s[i] == ',',
    ensures
        comma_count(s) >= 1,
    decreases s.len(),
{
    if i == s.len() - 1 {
        lemma_comma_count_nonneg(s.drop_last());
    } else {
        lemma_comma_count_pos(s.drop_last(), i);
    }
}

impl HexCoord {
    /// Render this coordinate as its canonical "q,r" key.
    pub fn to_key(&self) -> (s: String)
        ensures
            s@ == spec_coord_key(*self),
    {
        let mut s = String::new();
        append_i64_digits(&mut s, self.q as i64);
        s.append(",");
        proof {
            reveal_strlit(",");
        }
        let ghost mid = s@;
        append_i64_digits(&mut s, self.r as i64);
        proof {
            assert(mid =~= spec_int_chars(self.q as int) + seq![',']);
            assert(s@ =~= spec_coord_key(*self));
        }
        s
    }

    /// Parse a coordinate from its "q,r" key.
    pub fn from_key(key: &str) -> (c: Option<HexCoord>)
        ensures
            c == spec_from_key(key@),
    {
        let n: usize = key.unicode_len();
        // Find the first comma and count all commas.
        let mut i: usize = 0;
        let mut ncommas: usize = 0;
        let mut comma_at: usize = 0;
        while i < n
            invariant
                i <= n == key@.len(),
                ncommas == comma_count(key@.subrange(0, i as int)),
                ncommas <= i,
                ncommas > 0 ==> (comma_at < i && key@[comma_at as int] == ','
                    && forall|j: int| 0 <= j < comma_at ==> key@[j] != ','),
                ncommas == 0 ==> forall|j: int| 0 <= j < i ==> key@[j] != ',',
            decreases n - i,
        {
            let ch = key.get_char(i);
            proof {
                assert(key@.subrange(0, i + 1 as int).drop_last() =~= key@.subrange(0, i as int));
            }
            if ch == ',' {
                if ncommas == 0 {
                    comma_at = i;
                }
                ncommas = ncommas + 1;
            }
            i = i + 1;
        }
        proof {
            assert(key@.subrange(0, n as int) =~= key@);
        }
        if ncommas != 1 {
            return None;
        }
        proof {
            // The recorded comma is the first one.
            assert(first_comma(key@) == comma_at as int) by {
                let ca: int = comma_at as int;
                assert(0 <= ca < key@.len() && key@[ca] == ',' && forall|j: int|
                    0 <= j < ca ==> key@[j] != ',');
                let w: int = first_comma(key@);
                assert(0 <= w < key@.len() && key@[w] == ',' && forall|j: int|
                    0 <= j < w ==> key@[j] != ',');
                if w < ca {
                    assert(key@[w] != ',');
                } else if ca < w {
                    assert(key@[ca] != ',');
                }
            }
        }
        let q = parse_i32_range(key, 0, comma_at);
        let r = parse_i32_range(key, comma_at + 1, n);
        match (q, r) {
            (Some(qv), Some(rv)) => Some(HexCoord { q: qv, r: rv }),
            _ => None,
        }
    }
}

/// Rendering a coordinate and parsing the key back returns the coordinate.
pub proof fn lemma_key_round_trip(c: HexCoord)
    ensures
        spec_from_key(spec_coord_key(c)) == Some(c),
{
    let s = spec_coord_key(c);
    let qs = spec_int_chars(c.q as int);
    let rs = spec_int_chars(c.r as int);
    lemma_int_chars_wf(c.q as int);
    lemma_int_chars_wf(c.r as int);
    assert(s.len() == qs.len() + 1 + rs.len());
    assert(s[qs.len() as int] == ',');
    assert(forall|j: int| 0 <= j < qs.len() ==> s[j] == qs[j] && s[j] != ',');
    assert(forall|j: int|
        qs.len() + 1 <= j < s.len() ==> s[j] == rs[j - qs.len() - 1] && s[j] != ',');
    lemma_comma_count_split(s, qs.len() as int);
    lemma_comma_count_split(s.subrange(qs.len() as int, s.len() as int), 1);
    assert(s.subrange(0, qs.len() as int) =~= qs);
    lemma_comma_count_none(qs);
    let tail = s.subrange(qs.len() as int, s.len() as int);
    assert(tail.subrange(1, tail.len() as int) =~= rs);
    lemma_comma_count_none(rs);
    assert(tail.subrange(0, 1) =~= seq![',']);
    assert(comma_count(tail.subrange(0, 1)) == 1) by {
        assert(tail.subrange(0, 1).len() == 1);
        assert(tail.subrange(0, 1).last() == ',');
        assert(tail.subrange(0, 1).drop_last() =~= Seq::<char>::empty());
        assert(comma_count(Seq::<char>::empty()) == 0);
    }
    assert(comma_count(s) == 1);
    assert(first_comma(s) == qs.len() as int) by {
        let ca: int = qs.len() as int;
        assert(0 <= ca < s.len() && s[ca] == ',' && forall|j: int| 0 <= j < ca ==> s[j] != ',');
        let w: int = first_comma(s);
        assert(0 <= w < s.len() && s[w] == ',' && forall|j: int| 0 <= j < w ==> s[j] != ',');
        if w < ca {
            assert(s[w] != ',');
        } else if ca < w {
            assert(s[ca] != ',');
        }
    }
    lemma_parse_int_chars(c.q as int);
    lemma_parse_int_chars(c.r as int);
    assert(s.subrange(0, qs.len() as int) =~= qs);
    assert(s.subrange(qs.len() + 1 as int, s.len() as int) =~= rs);
}

/// The decimal rendering holds no comma, starts with '-' exactly for
/// negative numbers, and parses back to the number.
proof fn lemma_int_chars_wf(n: int)
    requires
        -2147483648 <= n <= 2147483647,
    ensures
        forall|j: int| 0 <= j < spec_int_chars(n).len() ==> spec_int_chars(n)[j] != ',',
        spec_int_chars(n).len() >= 1,
{
    lemma_nat_chars_digits(if n < 0 {
        -n
    } else {
        n
    });
}

proof fn lemma_nat_chars_digits(n: int)
    requires
        n >= 0,
    ensures
        all_digits(spec_nat_chars(n)),
        spec_nat_chars(n).len() >= 1,
        forall|j: int| 0 <= j < spec_nat_chars(n).len() ==> spec_nat_chars(n)[j] != ',',
        spec_digits_value(spec_nat_chars(n)) == n,
        n >= 1 ==> digit_val(spec_nat_chars(n)[0]) != Some(0int),
    decreases n,
{
    if n < 10 {
        assert(digit_val(digit_char(n)) == Some(n));
        assert(spec_nat_chars(n) =~= seq![digit_char(n)]);
        assert(spec_nat_chars(n).drop_last() =~= Seq::<char>::empty());
        assert(spec_digits_value(Seq::<char>::empty()) == 0);
    } else {
        lemma_nat_chars_digits(n / 10);
        let s = spec_nat_chars(n);
        let t = spec_nat_chars(n / 10);
        assert(s =~= t.push(digit_char(n % 10)));
        assert(s.drop_last() =~= t);
        assert(forall|j: int| 0 <= j < t.len() ==> s[j] == t[j]);
        assert(digit_val(digit_char(n % 10)) == Some(n % 10));
        assert(spec_digits_value(s) == spec_digits_value(t) * 10 + n % 10);
    }
}

proof fn lemma_parse_int_chars(n: int)
    requires
        -2147483648 <= n <= 2147483647,
    ensures
        spec_parse_i32(spec_int_chars(n)) == Some(n),
{
    lemma_nat_chars_digits(if n < 0 {
        -n
    } else {
        n
    });
    let s = spec_int_chars(n);
    if n < 0 {
        let digits = s.subrange(1, s.len() as int);
        assert(digits =~= spec_nat_chars(-n));
        assert(s[0] == '-');
    } else {
        assert(digit_val(s[0]) is Some);
        assert(s[0] != '-' && s[0] != '+') by {
            let c = s[0];
            assert(digit_val(c) is Some);
        }
    }
}

} // verus!
