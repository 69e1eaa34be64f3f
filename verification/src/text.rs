use vstd::prelude::*;

use crate::date::Date;

verus! {

/// A decimal digit byte.
pub open spec fn is_digit_byte(b: u8) -> bool {
    48 <= b <= 57
}

/// The decimal digit bytes of a non-negative integer, most significant
/// first, with no leading zero (a lone zero for 0).
pub open spec fn dec_digits(n: int) -> Seq<u8>
    decreases n,
{
    if n < 10 {
        seq![(48 + n) as u8]
    } else {
        dec_digits(n / 10).push((48 + n % 10) as u8)
    }
}

/// The decimal digit bytes of a signed integer: a leading minus sign for a
/// negative value, then the digits of its magnitude.
pub open spec fn signed_dec_digits(n: int) -> Seq<u8> {
    if n < 0 {
        seq![45u8] + dec_digits(-n)
    } else {
        dec_digits(n)
    }
}

/// The bytes of `"Date(day="`.
pub open spec fn text_lit_day() -> Seq<u8> {
    seq![68u8, 97u8, 116u8, 101u8, 40u8, 100u8, 97u8, 121u8, 61u8]
}

/// The bytes of `", month="`.
pub open spec fn text_lit_month() -> Seq<u8> {
    seq![44u8, 32u8, 109u8, 111u8, 110u8, 116u8, 104u8, 61u8]
}

/// The bytes of `", year="`.
pub open spec fn text_lit_year() -> Seq<u8> {
    seq![44u8, 32u8, 121u8, 101u8, 97u8, 114u8, 61u8]
}

/// The canonical text of a date: `Date(day=D, month=M, year=Y)` with the
/// three fields in decimal.
pub open spec fn spec_text(d: Date) -> Seq<u8> {
    text_lit_day() + dec_digits(d.day as int) + text_lit_month() + dec_digits(d.month as int)
        + text_lit_year() + signed_dec_digits(d.year as int) + seq![41u8]
}

/// The numeric value of a sequence of decimal digit bytes, read left to
/// right.
pub open spec fn decimal_value(s: Seq<u8>) -> int
    decreases s.len(),
{
    if s.len() == 0 {
        0
    } else {
        decimal_value(s.drop_last()) * 10 + (s.last() - 48)
    }
}

/// Ten to the given power.
pub open spec fn pow10(k: nat) -> int
    decreases k,
{
    if k == 0 {
        1
    } else {
        10 * pow10((k - 1) as nat)
    }
}

/// Every byte that `dec_digits` emits for a non-negative value is a decimal
/// digit.
pub proof fn lemma_dec_digits_are_digits(n: int)
    requires
        n >= 0,
    ensures
        dec_digits(n).len() >= 1,
        forall|k: int| 0 <= k < dec_digits(n).len() ==> is_digit_byte(#[trigger] dec_digits(n)[k]),
    decreases n,
{
    if n >= 10 {
        lemma_dec_digits_are_digits(n / 10);
    }
}

/// Reading the digit bytes of a value back yields the value.
pub proof fn lemma_decimal_value_dec(n: int)
    requires
        n >= 0,
    ensures
        decimal_value(dec_digits(n)) == n,
    decreases n,
{
    if n < 10 {
        assert(dec_digits(n).len() == 1);
        assert(dec_digits(n).last() == (48 + n) as u8);
        assert(dec_digits(n).drop_last() =~= Seq::<u8>::empty());
        assert(decimal_value(dec_digits(n).drop_last()) == 0);
        assert((48 + n) as u8 == 48 + n);
        assert(decimal_value(dec_digits(n)) == 0 * 10 + ((48 + n) as u8 - 48));
    } else {
        lemma_decimal_value_dec(n / 10);
        let b: u8 = (48 + n % 10) as u8;
        assert(dec_digits(n) == dec_digits(n / 10).push(b));
        assert(dec_digits(n).drop_last() =~= dec_digits(n / 10));
        assert(dec_digits(n).last() == b);
        assert(b - 48 == n % 10);
        assert(n == (n / 10) * 10 + n % 10) by (nonlinear_arith);
    }
}

/// Powers of ten do not decrease.
proof fn lemma_pow10_mono(a: nat, b: nat)
    requires
        a <= b,
    ensures
        pow10(a) <= pow10(b),
        pow10(a) >= 1,
    decreases b,
{
    if b > 0 {
        if a == b {
            lemma_pow10_mono((a - 1) as nat, (b - 1) as nat);
        } else {
            lemma_pow10_mono(a, (b - 1) as nat);
        }
    }
}

/// A value below the `k`-th power of ten prints in at most `k` digits.
proof fn lemma_dec_len(n: int, k: nat)
    requires
        0 <= n,
        1 <= k,
        n < pow10(k),
    ensures
        dec_digits(n).len() <= k,
    decreases k,
{
    if n >= 10 {
        assert(k >= 2) by {
            if k == 1 {
                reveal_with_fuel(pow10, 2);
                assert(pow10(1nat) == 10);
            }
        }
        assert(n / 10 < pow10((k - 1) as nat));
        lemma_dec_len(n / 10, (k - 1) as nat);
    }
}

/// Appends the decimal digits of `n`.
fn append_dec(v: &mut Vec<u8>, n: u32)
    ensures
        final(v)@ == old(v)@ + dec_digits(n as int),
    decreases n,
{
    if n >= 10 {
        append_dec(v, n / 10);
    }
    let d: u8 = 48 + (n % 10) as u8;
    v.push(d);
    proof {
        assert(v@ =~= old(v)@ + dec_digits(n as int));
    }
}

/// Appends the decimal digits of `n`, sign included.
fn append_signed_dec(v: &mut Vec<u8>, n: i32)
    ensures
        final(v)@ == old(v)@ + signed_dec_digits(n as int),
{
    if n >= 0 {
        append_dec(v, n as u32);
    } else {
        v.push(45);
        let m: u32 = (-(n as i64)) as u32;
        append_dec(v, m);
        proof {
            assert(v@ =~= old(v)@ + signed_dec_digits(n as int));
        }
    }
}

/// Bytes all below 128.
pub open spec fn all_ascii(s: Seq<u8>) -> bool {
    forall|i: int| 0 <= i < s.len() ==> s[i] < 128
}

proof fn lemma_ascii_concat(a: Seq<u8>, b: Seq<u8>)
    requires
        all_ascii(a),
        all_ascii(b),
    ensures
        all_ascii(a + b),
{
    assert forall|i: int| 0 <= i < (a + b).len() implies (a + b)[i] < 128 by {
        if i < a.len() {
            assert((a + b)[i] == a[i]);
        } else {
            assert((a + b)[i] == b[i - a.len()]);
        }
    }
}

/// The canonical text of a date holds ASCII bytes only.
proof fn lemma_spec_text_ascii(d: Date)
    ensures
        all_ascii(spec_text(d)),
{
    lemma_dec_digits_are_digits(d.day as int);
    lemma_dec_digits_are_digits(d.month as int);
    assert(all_ascii(signed_dec_digits(d.year as int))) by {
        if d.year < 0 {
            lemma_dec_digits_are_digits(-(d.year as int));
            lemma_ascii_concat(seq![45u8], dec_digits(-(d.year as int)));
        } else {
            lemma_dec_digits_are_digits(d.year as int);
        }
    }
    lemma_ascii_concat(text_lit_day(), dec_digits(d.day as int));
    lemma_ascii_concat(
        text_lit_day() + dec_digits(d.day as int),
        text_lit_month(),
    );
    lemma_ascii_concat(
        text_lit_day() + dec_digits(d.day as int) + text_lit_month(),
        dec_digits(d.month as int),
    );
    lemma_ascii_concat(
        text_lit_day() + dec_digits(d.day as int) + text_lit_month() + dec_digits(d.month as int),
        text_lit_year(),
    );
    lemma_ascii_concat(
        text_lit_day() + dec_digits(d.day as int) + text_lit_month() + dec_digits(d.month as int)
            + text_lit_year(),
        signed_dec_digits(d.year as int),
    );
    lemma_ascii_concat(
        text_lit_day() + dec_digits(d.day as int) + text_lit_month() + dec_digits(d.month as int)
            + text_lit_year() + signed_dec_digits(d.year as int),
        seq![41u8],
    );
}

/// Relies on `String::from_utf8`: a vector of ASCII bytes decodes to the
/// string of exactly those code points, one character per byte.
#[verifier::external_body]
fn ascii_string(v: Vec<u8>) -> (r: String)
    requires
        all_ascii(v@),
    ensures
        r@.len() == v@.len(),
        forall|i: int| 0 <= i < v@.len() ==> r@[i] == (#[trigger] v@[i]) as char,
{
    String::from_utf8(v).unwrap_or_default()
}

impl Date {
    /// The canonical text of this date, as bytes.
    pub fn to_text(&self) -> (r: Vec<u8>)
        ensures
            r@ == spec_text(*self),
    {
        let mut v: Vec<u8> = Vec::new();
        v.push(68);
        v.push(97);
        v.push(116);
        v.push(101);
        v.push(40);
        v.push(100);
        v.push(97);
        v.push(121);
        v.push(61);
        proof {
            assert(v@ =~= text_lit_day());
        }
        append_dec(&mut v, self.day as u32);
        let ghost s1 = text_lit_day() + dec_digits(self.day as int);
        v.push(44);
        v.push(32);
        v.push(109);
        v.push(111);
        v.push(110);
        v.push(116);
        v.push(104);
        v.push(61);
        proof {
            assert(v@ =~= s1 + text_lit_month());
        }
        append_dec(&mut v, self.month as u32);
        let ghost s2 = s1 + text_lit_month() + dec_digits(self.month as int);
        v.push(44);
        v.push(32);
        v.push(121);
        v.push(101);
        v.push(97);
        v.push(114);
        v.push(61);
        proof {
            assert(v@ =~= s2 + text_lit_year());
        }
        append_signed_dec(&mut v, self.year);
        v.push(41);
        proof {
            assert(v@ =~= spec_text(*self));
        }
        v
    }

    /// The deterministic display form `Date(day=D, month=M, year=Y)`.
    pub fn display_string(&self) -> (r: String)
        ensures
            r@.len() == spec_text(*self).len(),
            forall|i: int|
                0 <= i < spec_text(*self).len() ==> r@[i] == (#[trigger] spec_text(*self)[i]) as char,
    {
        let v = self.to_text();
        proof {
            lemma_spec_text_ascii(*self);
        }
        ascii_string(v)
    }
}

/// The magnitude of a date's year field.
pub open spec fn year_magnitude(d: Date) -> int {
    if d.year < 0 {
        -(d.year as int)
    } else {
        d.year as int
    }
}

/// Where each piece of a date's canonical text lies.
proof fn lemma_spec_text_shape(d: Date)
    ensures
        ({
            let t = spec_text(d);
            let dd = dec_digits(d.day as int);
            let mm = dec_digits(d.month as int);
            let yy = signed_dec_digits(d.year as int);
            let dl: int = dd.len() as int;
            let ml: int = mm.len() as int;
            let yl: int = yy.len() as int;
            &&& t.len() == 25 + dl + ml + yl
            &&& t.subrange(0, 9) == text_lit_day()
            &&& t.subrange(9, 9 + dl) == dd
            &&& t.subrange(9 + dl, 17 + dl) == text_lit_month()
            &&& t.subrange(17 + dl, 17 + dl + ml) == mm
            &&& t.subrange(17 + dl + ml, 24 + dl + ml) == text_lit_year()
            &&& t.subrange(24 + dl + ml, 24 + dl + ml + yl) == yy
            &&& t[24 + dl + ml + yl] == 41
        }),
{
    let t = spec_text(d);
    let dd = dec_digits(d.day as int);
    let mm = dec_digits(d.month as int);
    let yy = signed_dec_digits(d.year as int);
    let dl: int = dd.len() as int;
    let ml: int = mm.len() as int;
    let yl: int = yy.len() as int;
    assert(t.subrange(0, 9) =~= text_lit_day());
    assert(t.subrange(9, 9 + dl) =~= dd);
    assert(t.subrange(9 + dl, 17 + dl) =~= text_lit_month());
    assert(t.subrange(17 + dl, 17 + dl + ml) =~= mm);
    assert(t.subrange(17 + dl + ml, 24 + dl + ml) =~= text_lit_year());
    assert(t.subrange(24 + dl + ml, 24 + dl + ml + yl) =~= yy);
}

/// Size and digit facts about the pieces of a date's canonical text.
proof fn lemma_text_pieces(d: Date)
    ensures
        1 <= dec_digits(d.day as int).len() <= 3,
        1 <= dec_digits(d.month as int).len() <= 3,
        1 <= dec_digits(year_magnitude(d)).len() <= 10,
        forall|k: int|
            0 <= k < dec_digits(d.day as int).len() ==> is_digit_byte(
                #[trigger] dec_digits(d.day as int)[k],
            ),
        forall|k: int|
            0 <= k < dec_digits(d.month as int).len() ==> is_digit_byte(
                #[trigger] dec_digits(d.month as int)[k],
            ),
        forall|k: int|
            0 <= k < dec_digits(year_magnitude(d)).len() ==> is_digit_byte(
                #[trigger] dec_digits(year_magnitude(d))[k],
            ),
        d.year < 0 ==> signed_dec_digits(d.year as int) == seq![45u8] + dec_digits(
            year_magnitude(d),
        ),
        d.year >= 0 ==> signed_dec_digits(d.year as int) == dec_digits(year_magnitude(d)),
        year_magnitude(d) <= 2147483648,
        d.year >= 0 ==> year_magnitude(d) <= 2147483647,
{
    reveal_with_fuel(pow10, 12);
    assert(pow10(3nat) == 1000);
    assert(pow10(10nat) == 10000000000);
    lemma_dec_digits_are_digits(d.day as int);
    lemma_dec_digits_are_digits(d.month as int);
    lemma_dec_digits_are_digits(year_magnitude(d));
    lemma_dec_len(d.day as int, 3nat);
    lemma_dec_len(d.month as int, 3nat);
    lemma_dec_len(year_magnitude(d), 10nat);
}

/// A scanned maximal digit run lines up with a digit run known to sit at the
/// same place, when that run is followed by a non-digit byte or the end.
proof fn lemma_run_alignment(s: Seq<u8>, start: int, run: Seq<u8>, j: int)
    requires
        0 <= start,
        start + run.len() <= s.len(),
        s.subrange(start, start + run.len()) == run,
        1 <= run.len() <= 10,
        forall|k: int| 0 <= k < run.len() ==> is_digit_byte(#[trigger] run[k]),
        start + run.len() == s.len() || !is_digit_byte(s[start + run.len()]),
        start <= j <= s.len(),
        j - start <= 10,
        forall|k: int| start <= k < j ==> is_digit_byte(#[trigger] s[k]),
        j == s.len() || !is_digit_byte(s[j]) || j - start == 10,
    ensures
        j == start + run.len(),
        s.subrange(start, j) == run,
{
    if j < start + run.len() {
        assert(s[j] == s.subrange(start, start + run.len())[j - start]);
        assert(is_digit_byte(s[j]));
        assert(false);
    } else if j > start + run.len() {
        assert(is_digit_byte(s[start + run.len()]));
        assert(false);
    }
}

/// Scans the maximal run of up to ten decimal digit bytes from `start` and
/// reads its value.
fn scan_run(s: &[u8], start: usize) -> (r: (u64, usize))
    requires
        start <= s@.len(),
    ensures
        start <= r.1 <= s@.len(),
        r.1 - start <= 10,
        forall|k: int| start <= k < r.1 ==> is_digit_byte(#[trigger] s@[k]),
        r.1 == s@.len() || !is_digit_byte(s@[r.1 as int]) || r.1 - start == 10,
        r.0 as int == decimal_value(s@.subrange(start as int, r.1 as int)),
{
    let mut j: usize = start;
    let mut value: u64 = 0;
    proof {
        assert(s@.subrange(start as int, start as int) =~= Seq::<u8>::empty());
    }
    while j < s.len() && j - start < 10 && 48 <= s[j] && s[j] <= 57
        invariant
            start <= j <= s@.len(),
            j - start <= 10,
            forall|k: int| start <= k < j ==> is_digit_byte(#[trigger] s@[k]),
            value as int == decimal_value(s@.subrange(start as int, j as int)),
            value < pow10((j - start) as nat),
        decreases s@.len() - j,
    {
        proof {
            lemma_pow10_mono((j - start) as nat, 9nat);
            reveal_with_fuel(pow10, 11);
            assert(pow10(9nat) == 1000000000);
        }
        let d: u8 = s[j] - 48;
        let ghost prev = s@.subrange(start as int, j as int);
        value = value * 10 + (d as u64);
        j = j + 1;
        proof {
            let cur = s@.subrange(start as int, j as int);
            assert(cur =~= prev.push(s@[j - 1]));
            assert(cur.drop_last() =~= prev);
            assert(cur.last() == s@[j - 1]);
            assert(pow10((j - start) as nat) == 10 * pow10((j - start - 1) as nat));
        }
    }
    (value, j)
}

/// Whether the input opens with `"Date(day="`.
fn check_day_lit(s: &[u8]) -> (r: bool)
    requires
        s@.len() >= 9,
    ensures
        r <==> s@.subrange(0, 9) == text_lit_day(),
{
    let ok = s[0] == 68 && s[1] == 97 && s[2] == 116 && s[3] == 101 && s[4] == 40 && s[5] == 100
        && s[6] == 97 && s[7] == 121 && s[8] == 61;
    proof {
        if ok {
            assert(s@.subrange(0, 9) =~= text_lit_day());
        } else {
            if s@.subrange(0, 9) == text_lit_day() {
                assert forall|k: int| 0 <= k < 9 implies s@[k] == text_lit_day()[k] by {
                    assert(s@[k] == s@.subrange(0, 9)[k]);
                }
                assert(false);
            }
        }
    }
    ok
}

/// Whether the bytes at `start` read `", month="`.
fn check_month_lit(s: &[u8], start: usize) -> (r: bool)
    requires
        start + 8 <= s@.len(),
    ensures
        r <==> s@.subrange(start as int, start as int + 8) == text_lit_month(),
{
    let ok = s[start] == 44 && s[start + 1] == 32 && s[start + 2] == 109 && s[start + 3] == 111
        && s[start + 4] == 110 && s[start + 5] == 116 && s[start + 6] == 104 && s[start + 7] == 61;
    proof {
        if ok {
            assert(s@.subrange(start as int, start as int + 8) =~= text_lit_month());
        } else {
            if s@.subrange(start as int, start as int + 8) == text_lit_month() {
                assert forall|k: int| 0 <= k < 8 implies s@[start + k] == text_lit_month()[k] by {
                    assert(s@[start + k] == s@.subrange(start as int, start as int + 8)[k]);
                }
                assert(false);
            }
        }
    }
    ok
}

/// Whether the bytes at `start` read `", year="`.
fn check_year_lit(s: &[u8], start: usize) -> (r: bool)
    requires
        start + 7 <= s@.len(),
    ensures
        r <==> s@.subrange(start as int, start as int + 7) == text_lit_year(),
{
    let ok = s[start] == 44 && s[start + 1] == 32 && s[start + 2] == 121 && s[start + 3] == 101
        && s[start + 4] == 97 && s[start + 5] == 114 && s[start + 6] == 61;
    proof {
        if ok {
            assert(s@.subrange(start as int, start as int + 7) =~= text_lit_year());
        } else {
            if s@.subrange(start as int, start as int + 7) == text_lit_year() {
                assert forall|k: int| 0 <= k < 7 implies s@[start + k] == text_lit_year()[k] by {
                    assert(s@[start + k] == s@.subrange(start as int, start as int + 7)[k]);
                }
                assert(false);
            }
        }
    }
    ok
}

/// On the canonical text of `d`, a maximal digit scan from position 9 stops
/// at the end of the day run and reads the day.
proof fn lemma_complete_day(s: Seq<u8>, d: Date, j: int, value: int)
    requires
        s == spec_text(d),
        9 <= j <= s.len(),
        j - 9 <= 10,
        forall|k: int| 9 <= k < j ==> is_digit_byte(#[trigger] s[k]),
        j == s.len() || !is_digit_byte(s[j]) || j - 9 == 10,
        value == decimal_value(s.subrange(9, j)),
    ensures
        j == 9 + dec_digits(d.day as int).len(),
        9 < j,
        value == d.day,
{
    lemma_spec_text_shape(d);
    lemma_text_pieces(d);
    let dd = dec_digits(d.day as int);
    let dl: int = dd.len() as int;
    assert(s[9 + dl] == s.subrange(9 + dl, 17 + dl)[0]);
    assert(s[9 + dl] == 44);
    lemma_run_alignment(s, 9, dd, j);
    lemma_decimal_value_dec(d.day as int);
}

/// On the canonical text of `d`, a maximal digit scan from the end of the
/// month label stops at the end of the month run and reads the month.
proof fn lemma_complete_month(s: Seq<u8>, d: Date, j: int, value: int)
    requires
        s == spec_text(d),
        17 + dec_digits(d.day as int).len() <= j <= s.len(),
        j - (17 + dec_digits(d.day as int).len()) <= 10,
        forall|k: int| 17 + dec_digits(d.day as int).len() <= k < j ==> is_digit_byte(#[trigger] s[k]),
        j == s.len() || !is_digit_byte(s[j]) || j - (17 + dec_digits(d.day as int).len()) == 10,
        value == decimal_value(s.subrange(17 + dec_digits(d.day as int).len() as int, j)),
    ensures
        j == 17 + dec_digits(d.day as int).len() + dec_digits(d.month as int).len(),
        17 + dec_digits(d.day as int).len() < j,
        value == d.month,
{
    lemma_spec_text_shape(d);
    lemma_text_pieces(d);
    let dd = dec_digits(d.day as int);
    let mm = dec_digits(d.month as int);
    let start: int = 17 + dd.len() as int;
    let ml: int = mm.len() as int;
    assert(s[start + ml] == s.subrange(start + ml, start + ml + 7)[0]);
    assert(s[start + ml] == 44);
    lemma_run_alignment(s, start, mm, j);
    lemma_decimal_value_dec(d.month as int);
}

/// On the canonical text of `d`, the sign byte and a maximal digit scan after
/// it recover the year's sign and magnitude, and the text ends right after
/// the closing parenthesis.
proof fn lemma_complete_year(s: Seq<u8>, d: Date, neg: bool, pos: int, j: int, value: int)
    requires
        s == spec_text(d),
        ({
            let start0: int = 24 + dec_digits(d.day as int).len() as int + dec_digits(
                d.month as int,
            ).len() as int;
            &&& neg == (start0 < s.len() && s[start0] == 45)
            &&& pos == if neg {
                start0 + 1
            } else {
                start0
            }
            &&& pos <= j <= s.len()
            &&& j - pos <= 10
            &&& (forall|k: int| pos <= k < j ==> is_digit_byte(#[trigger] s[k]))
            &&& (j == s.len() || !is_digit_byte(s[j]) || j - pos == 10)
            &&& value == decimal_value(s.subrange(pos, j))
        }),
    ensures
        neg == (d.year < 0),
        value == year_magnitude(d),
        pos < j,
        j < s.len(),
        s[j] == 41,
        j + 1 == s.len(),
{
    lemma_spec_text_shape(d);
    lemma_text_pieces(d);
    let dd = dec_digits(d.day as int);
    let mm = dec_digits(d.month as int);
    let yy = signed_dec_digits(d.year as int);
    let yd = dec_digits(year_magnitude(d));
    let start0: int = 24 + dd.len() as int + mm.len() as int;
    let yyl: int = yy.len() as int;
    let ydl: int = yd.len() as int;
    assert(s.len() == start0 + yyl + 1);
    assert(s[start0] == s.subrange(start0, start0 + yyl)[0]);
    assert(s[start0 + yyl] == 41);
    if d.year < 0 {
        assert(yy[0] == 45);
        assert(neg);
        assert(s.subrange(start0 + 1, start0 + 1 + ydl) =~= yd) by {
            assert forall|k: int| 0 <= k < ydl implies s[start0 + 1 + k] == yd[k] by {
                assert(s[start0 + 1 + k] == s.subrange(start0, start0 + yyl)[1 + k]);
                assert(yy[1 + k] == yd[k]);
            }
        }
        assert(!is_digit_byte(s[start0 + 1 + ydl]));
        lemma_run_alignment(s, start0 + 1, yd, j);
    } else {
        assert(yy == yd);
        assert(s[start0] == yd[0]);
        assert(is_digit_byte(yd[0]));
        assert(!neg);
        assert(s.subrange(start0, start0 + ydl) == yd);
        assert(!is_digit_byte(s[start0 + ydl]));
        lemma_run_alignment(s, start0, yd, j);
    }
    lemma_decimal_value_dec(year_magnitude(d));
}

/// Two digit runs starting at the same place, each delimited by a non-digit
/// byte or the end, are the same run.
proof fn lemma_run_eq(s: Seq<u8>, start: int, r1: Seq<u8>, r2: Seq<u8>)
    requires
        0 <= start,
        start + r1.len() <= s.len(),
        start + r2.len() <= s.len(),
        s.subrange(start, start + r1.len()) == r1,
        s.subrange(start, start + r2.len()) == r2,
        forall|k: int| 0 <= k < r1.len() ==> is_digit_byte(#[trigger] r1[k]),
        forall|k: int| 0 <= k < r2.len() ==> is_digit_byte(#[trigger] r2[k]),
        start + r1.len() == s.len() || !is_digit_byte(s[start + r1.len()]),
        start + r2.len() == s.len() || !is_digit_byte(s[start + r2.len()]),
    ensures
        r1 == r2,
{
    if r1.len() < r2.len() {
        let k: int = r1.len() as int;
        assert(s[start + k] == s.subrange(start, start + r2.len())[k]);
        assert(is_digit_byte(s[start + r1.len()]));
        assert(false);
    } else if r2.len() < r1.len() {
        let k: int = r2.len() as int;
        assert(s[start + k] == s.subrange(start, start + r1.len())[k]);
        assert(is_digit_byte(s[start + r2.len()]));
        assert(false);
    } else {
        assert(r1 =~= r2);
    }
}

/// The canonical text determines the date: printing is injective.
#[verifier::rlimit(100)]
pub proof fn lemma_text_injective(a: Date, b: Date)
    requires
        spec_text(a) == spec_text(b),
    ensures
        a == b,
{
    let s = spec_text(a);
    lemma_spec_text_shape(a);
    lemma_spec_text_shape(b);
    lemma_text_pieces(a);
    lemma_text_pieces(b);
    let da = dec_digits(a.day as int);
    let db = dec_digits(b.day as int);
    let dal: int = da.len() as int;
    let dbl: int = db.len() as int;
    assert(s[9 + dal] == s.subrange(9 + dal, 17 + dal)[0]);
    assert(s[9 + dbl] == spec_text(b).subrange(9 + dbl, 17 + dbl)[0]);
    lemma_run_eq(s, 9, da, db);
    lemma_decimal_value_dec(a.day as int);
    lemma_decimal_value_dec(b.day as int);
    assert(a.day == b.day);
    let ma = dec_digits(a.month as int);
    let mb = dec_digits(b.month as int);
    let o2: int = 17 + da.len() as int;
    let mal: int = ma.len() as int;
    let mbl: int = mb.len() as int;
    assert(s[o2 + mal] == s.subrange(o2 + mal, o2 + mal + 7)[0]);
    assert(s[o2 + mbl] == spec_text(b).subrange(o2 + mbl, o2 + mbl + 7)[0]);
    lemma_run_eq(s, o2, ma, mb);
    lemma_decimal_value_dec(a.month as int);
    lemma_decimal_value_dec(b.month as int);
    assert(a.month == b.month);
    let ya = signed_dec_digits(a.year as int);
    let yb = signed_dec_digits(b.year as int);
    let yda = dec_digits(year_magnitude(a));
    let ydb = dec_digits(year_magnitude(b));
    let o5: int = 24 + da.len() as int + ma.len() as int;
    let yal: int = ya.len() as int;
    let ybl: int = yb.len() as int;
    let ydal: int = yda.len() as int;
    let ydbl: int = ydb.len() as int;
    assert(s.len() == o5 + yal + 1);
    assert(s.len() == o5 + ybl + 1);
    assert(s[o5] == s.subrange(o5, o5 + yal)[0]);
    assert(s[o5] == spec_text(b).subrange(o5, o5 + ybl)[0]);
    assert(s[o5 + yal] == 41);
    assert(s[o5 + ybl] == 41);
    if a.year < 0 && b.year >= 0 {
        assert(s[o5] == 45);
        assert(s[o5] == ydb[0]);
        assert(false);
    }
    if a.year >= 0 && b.year < 0 {
        assert(s[o5] == 45);
        assert(s[o5] == yda[0]);
        assert(false);
    }
    if a.year < 0 {
        assert(s.subrange(o5 + 1, o5 + 1 + ydal) =~= yda) by {
            assert forall|k: int| 0 <= k < ydal implies s[o5 + 1 + k] == yda[k] by {
                assert(s[o5 + 1 + k] == s.subrange(o5, o5 + yal)[1 + k]);
                assert(ya[1 + k] == yda[k]);
            }
        }
        assert(s.subrange(o5 + 1, o5 + 1 + ydbl) =~= ydb) by {
            assert forall|k: int| 0 <= k < ydbl implies s[o5 + 1 + k] == ydb[k] by {
                assert(s[o5 + 1 + k] == spec_text(b).subrange(o5, o5 + ybl)[1 + k]);
                assert(yb[1 + k] == ydb[k]);
            }
        }
        lemma_run_eq(s, o5 + 1, yda, ydb);
    } else {
        assert(s.subrange(o5, o5 + ydal) == yda);
        assert(spec_text(b).subrange(o5, o5 + ydbl) == ydb);
        lemma_run_eq(s, o5, yda, ydb);
    }
    lemma_decimal_value_dec(year_magnitude(a));
    lemma_decimal_value_dec(year_magnitude(b));
    assert(year_magnitude(a) == year_magnitude(b));
    assert(a.year == b.year);
}

/// The date whose canonical text a byte sequence is, if there is one.
pub open spec fn spec_parse(s: Seq<u8>) -> Option<Date> {
    if exists|d: Date| s == spec_text(d) {
        Some(choose|d: Date| s == spec_text(d))
    } else {
        None
    }
}

/// Printing a date and parsing the text back yields the date itself: the
/// display form carries the whole (day, month, year) triple.
pub proof fn lemma_text_round_trip(d: Date)
    ensures
        spec_parse(spec_text(d)) == Some(d),
{
    assert(spec_text(d) == spec_text(d));
    assert(exists|x: Date| spec_text(d) == spec_text(x));
    let x = choose|x: Date| spec_text(d) == spec_text(x);
    lemma_text_injective(x, d);
}

impl Date {
    /// Reads a date back from its canonical text: the date whose display
    /// form the input is, and nothing on any other input.
    #[verifier::rlimit(100)]
    pub fn from_text(s: &[u8]) -> (r: Option<Date>)
        ensures
            r matches Some(d) ==> s@ == spec_text(d),
            forall|d: Date| s@ == spec_text(d) ==> r == Some(d),
    {
        if s.len() < 9 {
            proof {
                assert forall|d: Date| s@ != spec_text(d) by {
                    if s@ == spec_text(d) {
                        lemma_spec_text_shape(d);
                    }
                }
            }
            return None;
        }
        if !check_day_lit(s) {
            proof {
                assert forall|d: Date| s@ != spec_text(d) by {
                    if s@ == spec_text(d) {
                        lemma_spec_text_shape(d);
                    }
                }
            }
            return None;
        }
        let scan1 = scan_run(s, 9);
        let dval: u64 = scan1.0;
        let j1: usize = scan1.1;
        if j1 == 9 {
            proof {
                assert forall|d: Date| s@ != spec_text(d) by {
                    if s@ == spec_text(d) {
                        lemma_complete_day(s@, d, j1 as int, dval as int);
                    }
                }
            }
            return None;
        }
        if s.len() - j1 < 8 {
            proof {
                assert forall|d: Date| s@ != spec_text(d) by {
                    if s@ == spec_text(d) {
                        lemma_complete_day(s@, d, j1 as int, dval as int);
                        lemma_spec_text_shape(d);
                        lemma_text_pieces(d);
                    }
                }
            }
            return None;
        }
        if !check_month_lit(s, j1) {
            proof {
                assert forall|d: Date| s@ != spec_text(d) by {
                    if s@ == spec_text(d) {
                        lemma_complete_day(s@, d, j1 as int, dval as int);
                        lemma_spec_text_shape(d);
                    }
                }
            }
            return None;
        }
        let scan2 = scan_run(s, j1 + 8);
        let mval: u64 = scan2.0;
        let j2: usize = scan2.1;
        if j2 == j1 + 8 {
            proof {
                assert forall|d: Date| s@ != spec_text(d) by {
                    if s@ == spec_text(d) {
                        lemma_complete_day(s@, d, j1 as int, dval as int);
                        lemma_complete_month(s@, d, j2 as int, mval as int);
                    }
                }
            }
            return None;
        }
        if s.len() - j2 < 7 {
            proof {
                assert forall|d: Date| s@ != spec_text(d) by {
                    if s@ == spec_text(d) {
                        lemma_complete_day(s@, d, j1 as int, dval as int);
                        lemma_complete_month(s@, d, j2 as int, mval as int);
                        lemma_spec_text_shape(d);
                        lemma_text_pieces(d);
                    }
                }
            }
            return None;
        }
        if !check_year_lit(s, j2) {
            proof {
                assert forall|d: Date| s@ != spec_text(d) by {
                    if s@ == spec_text(d) {
                        lemma_complete_day(s@, d, j1 as int, dval as int);
                        lemma_complete_month(s@, d, j2 as int, mval as int);
                        lemma_spec_text_shape(d);
                    }
                }
            }
            return None;
        }
        let pos0: usize = j2 + 7;
        let negb: bool = pos0 < s.len() && s[pos0] == 45;
        let pos: usize = if negb {
            pos0 + 1
        } else {
            pos0
        };
        let scan3 = scan_run(s, pos);
        let yval: u64 = scan3.0;
        let j3: usize = scan3.1;
        if j3 == pos || j3 == s.len() {
            proof {
                assert forall|d: Date| s@ != spec_text(d) by {
                    if s@ == spec_text(d) {
                        lemma_complete_day(s@, d, j1 as int, dval as int);
                        lemma_complete_month(s@, d, j2 as int, mval as int);
                        lemma_complete_year(s@, d, negb, pos as int, j3 as int, yval as int);
                    }
                }
            }
            return None;
        }
        if s[j3] != 41 || s.len() - j3 != 1 {
            proof {
                assert forall|d: Date| s@ != spec_text(d) by {
                    if s@ == spec_text(d) {
                        lemma_complete_day(s@, d, j1 as int, dval as int);
                        lemma_complete_month(s@, d, j2 as int, mval as int);
                        lemma_complete_year(s@, d, negb, pos as int, j3 as int, yval as int);
                    }
                }
            }
            return None;
        }
        let in_range: bool = dval <= 255 && mval <= 255 && (if negb {
            yval <= 2147483648
        } else {
            yval <= 2147483647
        });
        if !in_range {
            proof {
                assert forall|d: Date| s@ != spec_text(d) by {
                    if s@ == spec_text(d) {
                        lemma_complete_day(s@, d, j1 as int, dval as int);
                        lemma_complete_month(s@, d, j2 as int, mval as int);
                        lemma_complete_year(s@, d, negb, pos as int, j3 as int, yval as int);
                        lemma_text_pieces(d);
                    }
                }
            }
            return None;
        }
        let year32: i32 = if negb {
            (-(yval as i64)) as i32
        } else {
            yval as i32
        };
        let candidate = Date { day: dval as u8, month: mval as u8, year: year32 };
        proof {
            assert forall|d: Date| s@ == spec_text(d) implies candidate == d by {
                lemma_complete_day(s@, d, j1 as int, dval as int);
                lemma_complete_month(s@, d, j2 as int, mval as int);
                lemma_complete_year(s@, d, negb, pos as int, j3 as int, yval as int);
                lemma_text_pieces(d);
            }
        }
        let t = candidate.to_text();
        if t.len() != s.len() {
            proof {
                assert forall|d: Date| s@ != spec_text(d) by {
                    if s@ == spec_text(d) {
                        assert(candidate == d);
                        assert(t@ == s@);
                    }
                }
            }
            return None;
        }
        let mut i: usize = 0;
        while i < t.len()
            invariant
                0 <= i <= t@.len(),
                t@.len() == s@.len(),
                t@ == spec_text(candidate),
                forall|k: int| 0 <= k < i ==> t@[k] == s@[k],
                forall|d: Date| s@ == spec_text(d) ==> candidate == d,
            decreases t@.len() - i,
        {
            if t[i] != s[i] {
                proof {
                    assert forall|d: Date| s@ != spec_text(d) by {
                        if s@ == spec_text(d) {
                            assert(candidate == d);
                            assert(t@ == s@);
                        }
                    }
                }
                return None;
            }
            i = i + 1;
        }
        proof {
            assert(s@ =~= t@);
        }
        Some(candidate)
    }
}

} // verus!
