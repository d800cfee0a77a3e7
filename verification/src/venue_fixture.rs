//! Venue fixture normalization: fixed-point decimal text to integer ticks and
//! lots, and raw depth levels to book levels.

use vstd::prelude::*;
use vstd::utf8::{encode_utf8, encode_utf8_valid_utf8, is_char_boundary, valid_utf8};
use vstd::string::StringSliceAdditionalSpecFns;

use crate::domain::PriceTicks;
use crate::order_book::{Delta, Level, Snapshot, level_view, levels_view};
use crate::render::{decimal, push_decimal, push_text};

verus! {

/// How many decimal places one tick and one lot stand for.
#[derive(Debug, Clone, Copy, PartialEq, Eq, Structural)]
pub struct DecimalScale {
    pub price_decimals: u32,
    pub qty_decimals: u32,
}

/// Why a fixture was refused.
#[derive(Debug, Clone, PartialEq, Eq)]
pub enum FixtureError {
    InvalidJson(String),
    InvalidDecimal(String),
    NegativeValue(String),
    TooPrecise { value: String, decimals: u32 },
    NumericOverflow(String),
    ZeroPrice,
}

impl FixtureError {
    /// The human-readable message for this error.
    pub fn message(&self) -> (s: String)
        ensures
            s@ == match self {
                FixtureError::InvalidJson(message) => "invalid fixture JSON: "@ + message@,
                FixtureError::InvalidDecimal(value) => "invalid decimal: "@ + value@,
                FixtureError::NegativeValue(value) => "fixture value cannot be negative: "@ + value@,
                FixtureError::TooPrecise { value, decimals } => "decimal exceeds "@ + decimal(*decimals as nat)
                    + " places: "@ + value@,
                FixtureError::NumericOverflow(value) => "decimal does not fit in i64: "@ + value@,
                FixtureError::ZeroPrice => "price cannot be zero"@,
            },
    {
        match self {
            FixtureError::InvalidJson(message) => {
                let mut s = "invalid fixture JSON: ".to_owned();
                push_text(&mut s, message.as_str());
                s
            },
            FixtureError::InvalidDecimal(value) => {
                let mut s = "invalid decimal: ".to_owned();
                push_text(&mut s, value.as_str());
                s
            },
            FixtureError::NegativeValue(value) => {
                let mut s = "fixture value cannot be negative: ".to_owned();
                push_text(&mut s, value.as_str());
                s
            },
            FixtureError::TooPrecise { value, decimals } => {
                let mut s = "decimal exceeds ".to_owned();
                push_decimal(&mut s, *decimals as u128);
                push_text(&mut s, " places: ");
                push_text(&mut s, value.as_str());
                s
            },
            FixtureError::NumericOverflow(value) => {
                let mut s = "decimal does not fit in i64: ".to_owned();
                push_text(&mut s, value.as_str());
                s
            },
            FixtureError::ZeroPrice => "price cannot be zero".to_owned(),
        }
    }
}

/// An ASCII decimal digit.
pub open spec fn is_digit(b: u8) -> bool {
    48 <= b <= 57
}

/// Every byte is a decimal digit.
pub open spec fn all_digits(s: Seq<u8>) -> bool {
    forall|i: int| 0 <= i < s.len() ==> is_digit(#[trigger] s[i])
}

/// Every byte is the digit zero.
pub open spec fn all_zeros(s: Seq<u8>) -> bool {
    forall|i: int| 0 <= i < s.len() ==> #[trigger] s[i] == 48
}

/// The number that a digit string denotes.
pub open spec fn digits_value(s: Seq<u8>) -> int
    decreases s.len(),
{
    if s.len() == 0 {
        0
    } else {
        digits_value(s.drop_last()) * 10 + (s.last() - 48)
    }
}

/// Ten to the power `n`.
pub open spec fn pow10(n: nat) -> int
    decreases n,
{
    if n == 0 {
        1
    } else {
        10 * pow10((n - 1) as nat)
    }
}

/// The index of the first '.', or the length when there is none.
pub open spec fn first_dot(s: Seq<u8>) -> int
    decreases s.len(),
{
    if s.len() == 0 {
        0
    } else if s[0] == 46 {
        0
    } else {
        1 + first_dot(s.drop_first())
    }
}

/// The text without one leading '+'.
pub open spec fn unsigned_part(b: Seq<u8>) -> Seq<u8> {
    if b.len() > 0 && b[0] == 43 {
        b.skip(1)
    } else {
        b
    }
}

/// The digits before the decimal point.
pub open spec fn whole_part(v: Seq<u8>) -> Seq<u8> {
    v.take(first_dot(v))
}

/// The digits after the decimal point (empty without one).
pub open spec fn fraction_part(v: Seq<u8>) -> Seq<u8> {
    if first_dot(v) < v.len() {
        v.skip(first_dot(v) + 1)
    } else {
        Seq::empty()
    }
}

/// How a decimal text reads at a given number of decimal places.
pub enum DecimalOutcome {
    Value(int),
    Negative,
    Invalid,
    TooPrecise,
    Overflow,
}

/// The fraction digits that survive scaling: at most `decimals` of them.
pub open spec fn kept_fraction(fraction: Seq<u8>, decimals: nat) -> Seq<u8> {
    if fraction.len() <= decimals {
        fraction
    } else {
        fraction.take(decimals as int)
    }
}

/// Reads `b` as an unsigned fixed-point decimal with `decimals` places: a
/// leading '-' is negative; after an optional '+', digits, optionally '.'
/// and more digits, with a nonempty whole part; extra fraction digits must be
/// zeros; the scaled value must fit an `i64` (and the scale itself an
/// `i128`).
pub open spec fn decimal_outcome(b: Seq<u8>, decimals: nat) -> DecimalOutcome {
    if b.len() > 0 && b[0] == 45 {
        DecimalOutcome::Negative
    } else {
        let v = unsigned_part(b);
        let whole = whole_part(v);
        let fraction = fraction_part(v);
        if whole.len() == 0 || !all_digits(whole) || !all_digits(fraction) {
            DecimalOutcome::Invalid
        } else if fraction.len() > decimals && !all_zeros(fraction.skip(decimals as int)) {
            DecimalOutcome::TooPrecise
        } else if decimals > 38 {
            DecimalOutcome::Overflow
        } else {
            let kept = kept_fraction(fraction, decimals);
            let scaled = digits_value(whole) * pow10(decimals) + digits_value(kept) * pow10(
                (decimals - kept.len()) as nat,
            );
            if scaled > i64::MAX {
                DecimalOutcome::Overflow
            } else {
                DecimalOutcome::Value(scaled)
            }
        }
    }
}

/// A digit string's value is at least zero and below ten to its length, and
/// appending a digit multiplies by ten and adds it.
proof fn lemma_digits_value_bounds(s: Seq<u8>)
    requires
        all_digits(s),
    ensures
        0 <= digits_value(s) < pow10(s.len()),
    decreases s.len(),
{
    if s.len() > 0 {
        let p = s.drop_last();
        assert(all_digits(p)) by {
            assert forall|i: int| 0 <= i < p.len() implies is_digit(#[trigger] p[i]) by {
                assert(p[i] == s[i]);
            }
        }
        lemma_digits_value_bounds(p);
        assert(is_digit(s[s.len() - 1]));
    }
}

/// A longer digit string is worth at least as much as its prefix.
proof fn lemma_digits_value_prefix(s: Seq<u8>, k: int)
    requires
        all_digits(s),
        0 <= k <= s.len(),
    ensures
        digits_value(s.take(k)) <= digits_value(s),
    decreases s.len() - k,
{
    if k < s.len() {
        lemma_digits_value_prefix(s, k + 1);
        let t = s.take(k + 1);
        assert(t.drop_last() =~= s.take(k));
        assert(is_digit(s[k]));
        lemma_digits_value_bounds(s.take(k));
        assert(all_digits(s.take(k))) by {
            assert forall|i: int| 0 <= i < k implies is_digit(#[trigger] s.take(k)[i]) by {
                assert(s.take(k)[i] == s[i]);
            }
        }
    } else {
        assert(s.take(k) =~= s);
    }
}

/// Ten to the power `n`, for `n <= 38`.
fn pow10_i128(n: u32) -> (r: i128)
    requires
        n <= 38,
    ensures
        r == pow10(n as nat),
        r > 0,
{
    let mut r: i128 = 1;
    let mut k: u32 = 0;
    while k < n
        invariant
            0 <= k <= n <= 38,
            r == pow10(k as nat),
            0 < r <= pow10(k as nat),
        decreases n - k,
    {
        proof {
            lemma_pow10_bound(k as nat);
        }
        r = r * 10;
        k = k + 1;
    }
    r
}

/// Powers of ten grow with the exponent.
proof fn lemma_pow10_monotone(m: nat, n: nat)
    requires
        m <= n,
    ensures
        0 < pow10(m) <= pow10(n),
    decreases n,
{
    if n > m {
        lemma_pow10_monotone(m, (n - 1) as nat);
    } else if n > 0 {
        lemma_pow10_monotone(0, (n - 1) as nat);
    }
}

/// Powers of ten up to 10^38 fit in an `i128`.
proof fn lemma_pow10_bound(n: nat)
    ensures
        pow10(n) > 0,
        n < 38 ==> pow10(n) * 10 <= 100_000_000_000_000_000_000_000_000_000_000_000_000,
        n <= 38 ==> pow10(n) <= 100_000_000_000_000_000_000_000_000_000_000_000_000,
{
    reveal_with_fuel(pow10, 39);
    assert(pow10(38) == 100_000_000_000_000_000_000_000_000_000_000_000_000);
    lemma_pow10_monotone(0, n);
    if n <= 38 {
        lemma_pow10_monotone(n, 38);
    }
    if n < 38 {
        lemma_pow10_monotone(n + 1, 38);
    }
}

/// `result` is what parsing the text with bytes `b` at `decimals` places
/// gives: the value, or the error for its outcome carrying the text (without
/// a leading '+', except for a negative value, which carries it whole).
pub open spec fn parse_result(result: Result<i64, FixtureError>, b: Seq<u8>, decimals: u32) -> bool {
    match decimal_outcome(b, decimals as nat) {
        DecimalOutcome::Value(n) => result == Ok::<i64, FixtureError>(n as i64),
        DecimalOutcome::Negative => result matches Err(FixtureError::NegativeValue(s)) && encode_utf8(s@) == b,
        DecimalOutcome::Invalid => result matches Err(FixtureError::InvalidDecimal(s)) && encode_utf8(s@)
            == unsigned_part(b),
        DecimalOutcome::TooPrecise => result matches Err(FixtureError::TooPrecise { value: s, decimals: d }) && d
            == decimals && encode_utf8(s@) == unsigned_part(b),
        DecimalOutcome::Overflow => result matches Err(FixtureError::NumericOverflow(s)) && encode_utf8(s@)
            == unsigned_part(b),
    }
}

/// The first '.' sits where the scan stopped.
proof fn lemma_first_dot(s: Seq<u8>, i: int)
    requires
        0 <= i <= s.len(),
        forall|j: int| 0 <= j < i ==> #[trigger] s[j] != 46,
        i < s.len() ==> s[i] == 46,
    ensures
        first_dot(s) == i,
    decreases s.len(),
{
    if i > 0 {
        let rest = s.drop_first();
        assert forall|j: int| 0 <= j < i - 1 implies #[trigger] rest[j] != 46 by {
            assert(rest[j] == s[j + 1]);
        }
        lemma_first_dot(rest, i - 1);
    }
}

/// Whether `v[from..to]` holds only digits.
fn digits_in(v: &[u8], from: usize, to: usize) -> (r: bool)
    requires
        from <= to <= v@.len(),
    ensures
        r == all_digits(v@.subrange(from as int, to as int)),
{
    let mut i = from;
    while i < to
        invariant
            from <= i <= to <= v@.len(),
            forall|j: int| from <= j < i ==> is_digit(#[trigger] v@[j]),
        decreases to - i,
    {
        if v[i] < 48 || v[i] > 57 {
            proof {
                assert(v@.subrange(from as int, to as int)[i - from] == v@[i as int]);
            }
            return false;
        }
        i = i + 1;
    }
    proof {
        assert forall|k: int| 0 <= k < to - from implies is_digit(#[trigger] v@.subrange(from as int, to as int)[k]) by {
            assert(v@.subrange(from as int, to as int)[k] == v@[from + k]);
        }
    }
    true
}

/// Whether `v[from..to]` holds only zeros.
fn zeros_in(v: &[u8], from: usize, to: usize) -> (r: bool)
    requires
        from <= to <= v@.len(),
    ensures
        r == all_zeros(v@.subrange(from as int, to as int)),
{
    let mut i = from;
    while i < to
        invariant
            from <= i <= to <= v@.len(),
            forall|j: int| from <= j < i ==> #[trigger] v@[j] == 48,
        decreases to - i,
    {
        if v[i] != 48 {
            proof {
                assert(v@.subrange(from as int, to as int)[i - from] == v@[i as int]);
            }
            return false;
        }
        i = i + 1;
    }
    proof {
        assert forall|k: int| 0 <= k < to - from implies #[trigger] v@.subrange(from as int, to as int)[k] == 48 by {
            assert(v@.subrange(from as int, to as int)[k] == v@[from + k]);
        }
    }
    true
}

/// The value of the digits `v[from..to]`, or `None` once it exceeds `limit`.
fn digits_value_up_to(v: &[u8], from: usize, to: usize, limit: i128) -> (r: Option<i128>)
    requires
        from <= to <= v@.len(),
        all_digits(v@.subrange(from as int, to as int)),
        0 <= limit <= 0x7fff_ffff_ffff_ffff_ffff_ffff_ffff_ffffint / 10 - 10,
    ensures
        r matches Some(x) ==> x == digits_value(v@.subrange(from as int, to as int)) && x <= limit,
        r is None ==> digits_value(v@.subrange(from as int, to as int)) > limit,
{
    let ghost s = v@.subrange(from as int, to as int);
    let mut acc: i128 = 0;
    let mut i = from;
    while i < to
        invariant
            from <= i <= to <= v@.len(),
            s == v@.subrange(from as int, to as int),
            all_digits(s),
            acc == digits_value(s.take(i - from)),
            0 <= acc <= limit,
            limit <= 0x7fff_ffff_ffff_ffff_ffff_ffff_ffff_ffffint / 10 - 10,
        decreases to - i,
    {
        proof {
            let k = i - from;
            assert(s.take(k + 1).drop_last() =~= s.take(k));
            assert(s.take(k + 1).last() == v@[i as int]);
            assert(is_digit(s[k]));
        }
        acc = acc * 10 + (v[i] - 48) as i128;
        i = i + 1;
        if acc > limit {
            proof {
                lemma_digits_value_prefix(s, i - from);
            }
            return None;
        }
    }
    proof {
        assert(s.take(i - from) =~= s);
    }
    Some(acc)
}

/// The value of at most 38 digits `v[from..to]`.
fn digits_value_short(v: &[u8], from: usize, to: usize) -> (r: i128)
    requires
        from <= to <= v@.len(),
        to - from <= 38,
        all_digits(v@.subrange(from as int, to as int)),
    ensures
        r == digits_value(v@.subrange(from as int, to as int)),
{
    let ghost s = v@.subrange(from as int, to as int);
    let mut acc: i128 = 0;
    let mut i = from;
    while i < to
        invariant
            from <= i <= to <= v@.len(),
            to - from <= 38,
            s == v@.subrange(from as int, to as int),
            all_digits(s),
            acc == digits_value(s.take(i - from)),
        decreases to - i,
    {
        proof {
            let k = i - from;
            assert(s.take(k + 1).drop_last() =~= s.take(k));
            assert(s.take(k + 1).last() == v@[i as int]);
            assert(is_digit(s[k]));
            assert(all_digits(s.take(k))) by {
                assert forall|j: int| 0 <= j < k implies is_digit(#[trigger] s.take(k)[j]) by {
                    assert(s.take(k)[j] == s[j]);
                }
            }
            lemma_digits_value_bounds(s.take(k));
            lemma_pow10_bound(k as nat);
        }
        acc = acc * 10 + (v[i] - 48) as i128;
        i = i + 1;
    }
    proof {
        assert(s.take(i - from) =~= s);
    }
    acc
}

/// A text of digits only has no decimal point.
proof fn lemma_first_dot_digits(b: Seq<u8>)
    requires
        all_digits(b),
    ensures
        first_dot(b) == b.len(),
    decreases b.len(),
{
    if b.len() > 0 {
        assert(is_digit(b[0]));
        let r = b.drop_first();
        assert forall|i: int| 0 <= i < r.len() implies is_digit(#[trigger] r[i]) by {
            assert(r[i] == b[i + 1]);
        }
        lemma_first_dot_digits(r);
    }
}

/// A whole number written with digits only reads as that number scaled to
/// the requested decimal places, refused only when it does not fit.
pub proof fn law_whole_number_text(b: Seq<u8>, decimals: nat)
    requires
        b.len() > 0,
        all_digits(b),
        decimals <= 38,
    ensures
        digits_value(b) * pow10(decimals) <= i64::MAX ==> decimal_outcome(b, decimals) == DecimalOutcome::Value(
            digits_value(b) * pow10(decimals),
        ),
        digits_value(b) * pow10(decimals) > i64::MAX ==> decimal_outcome(b, decimals) == DecimalOutcome::Overflow,
{
    assert(is_digit(b[0]));
    lemma_first_dot_digits(b);
    assert(unsigned_part(b) == b);
    assert(whole_part(b) =~= b);
    assert(fraction_part(b) =~= Seq::<u8>::empty());
    assert(kept_fraction(Seq::<u8>::empty(), decimals) =~= Seq::<u8>::empty());
    assert(digits_value(Seq::<u8>::empty()) == 0);
}

/// One leading '+' is ignored: a text reads the same with or without it.
pub proof fn law_plus_sign_ignored(b: Seq<u8>, decimals: nat)
    requires
        !(b.len() > 0 && (b[0] == 43 || b[0] == 45)),
    ensures
        decimal_outcome(seq![43u8] + b, decimals) == decimal_outcome(b, decimals),
{
    assert((seq![43u8] + b).skip(1) =~= b);
}

/// Parses an unsigned fixed-point decimal into an integer count of units of
/// `10^-decimals`. A leading '-' is refused as negative; one leading '+' is
/// accepted; the text must be digits with at most one '.', a nonempty whole
/// part and digits after the point; digits beyond `decimals` must be zeros;
/// the result must fit an `i64`.
#[verifier::rlimit(40)]
pub fn parse_decimal(value: &str, decimals: u32) -> (result: Result<i64, FixtureError>)
    ensures
        parse_result(result, value.spec_bytes(), decimals),
{
    let bytes = value.as_bytes();
    if bytes.len() > 0 && bytes[0] == 45 {
        let owned = value.to_owned();
        proof {
            assert(encode_utf8(owned@) == value.spec_bytes());
        }
        return Err(FixtureError::NegativeValue(owned));
    }
    let stripped: &str = if bytes.len() > 0 && bytes[0] == 43 {
        proof {
            encode_utf8_valid_utf8(value@);
            reveal_with_fuel(is_char_boundary, 2);
            assert(is_char_boundary(value.spec_bytes(), 1));
        }
        let (_, rest) = value.split_at(1);
        rest
    } else {
        value
    };
    let v = stripped.as_bytes();
    let ghost b = value.spec_bytes();
    proof {
        assert(v@ =~= unsigned_part(b));
    }
    let len = v.len();
    let mut dot: usize = 0;
    while dot < len && v[dot] != 46
        invariant
            0 <= dot <= len == v@.len(),
            forall|j: int| 0 <= j < dot ==> #[trigger] v@[j] != 46,
        decreases len - dot,
    {
        dot = dot + 1;
    }
    proof {
        lemma_first_dot(v@, dot as int);
    }
    let frac_start = if dot < len { dot + 1 } else { len };
    proof {
        assert(whole_part(v@) =~= v@.subrange(0, dot as int));
        assert(fraction_part(v@) =~= v@.subrange(frac_start as int, len as int));
    }
    if dot == 0 || !digits_in(v, 0, dot) || !digits_in(v, frac_start, len) {
        return Err(FixtureError::InvalidDecimal(stripped.to_owned()));
    }
    let ghost whole = whole_part(v@);
    let ghost fraction = fraction_part(v@);
    let fraction_len = len - frac_start;
    let d = decimals as usize;
    if fraction_len > d {
        let zeros = zeros_in(v, frac_start + d, len);
        proof {
            assert(fraction.skip(d as int) =~= v@.subrange(frac_start + d, len as int));
        }
        if !zeros {
            return Err(FixtureError::TooPrecise { value: stripped.to_owned(), decimals });
        }
    }
    if decimals > 38 {
        return Err(FixtureError::NumericOverflow(stripped.to_owned()));
    }
    let factor = pow10_i128(decimals);
    let keep = if fraction_len < d { fraction_len } else { d };
    let ghost kept = kept_fraction(fraction, decimals as nat);
    proof {
        assert(kept =~= v@.subrange(frac_start as int, (frac_start + keep) as int));
        assert(all_digits(kept)) by {
            assert forall|i: int| 0 <= i < kept.len() implies is_digit(#[trigger] kept[i]) by {
                assert(kept[i] == fraction[i]);
            }
        }
        lemma_digits_value_bounds(kept);
        lemma_digits_value_bounds(whole);
        lemma_pow10_bound(keep as nat);
        lemma_pow10_bound(decimals as nat);
        lemma_pow10_bound((decimals - keep) as nat);
    }
    let whole_value = match digits_value_up_to(v, 0, dot, 0x7fff_ffff_ffff_ffff) {
        Some(w) => w,
        None => {
            proof {
                assert(pow10(decimals as nat) >= 1);
                assert(digits_value(whole) * pow10(decimals as nat) >= digits_value(whole)) by (nonlinear_arith)
                    requires
                        pow10(decimals as nat) >= 1,
                        digits_value(whole) >= 0,
                ;
                assert(digits_value(kept) * pow10((decimals - kept.len()) as nat) >= 0) by (nonlinear_arith)
                    requires
                        pow10((decimals - kept.len()) as nat) >= 1,
                        digits_value(kept) >= 0,
                ;
            }
            return Err(FixtureError::NumericOverflow(stripped.to_owned()));
        },
    };
    let fraction_value = digits_value_short(v, frac_start, frac_start + keep);
    let padding = pow10_i128(decimals - keep as u32);
    proof {
        assert(fraction_value * padding < pow10(decimals as nat)) by {
            lemma_pow10_sum(keep as nat, (decimals - keep) as nat);
            assert(fraction_value * padding < pow10(keep as nat) * padding) by (nonlinear_arith)
                requires
                    fraction_value < pow10(keep as nat),
                    padding > 0,
            ;
        }
    }
    let fraction_scaled: i128 = fraction_value * padding;
    let scaled = match whole_value.checked_mul(factor) {
        Some(x) => match x.checked_add(fraction_scaled) {
            Some(y) => y,
            None => return Err(FixtureError::NumericOverflow(stripped.to_owned())),
        },
        None => {
            proof {
                assert(fraction_scaled >= 0) by (nonlinear_arith)
                    requires
                        fraction_value >= 0,
                        padding > 0,
                        fraction_scaled == fraction_value * padding,
                ;
            }
            return Err(FixtureError::NumericOverflow(stripped.to_owned()));
        },
    };
    if scaled > 0x7fff_ffff_ffff_ffff {
        return Err(FixtureError::NumericOverflow(stripped.to_owned()));
    }
    Ok(scaled as i64)
}

/// Whether one raw level reads as a book level: both texts parse and the
/// price is positive.
pub open spec fn level_ok(price: Seq<u8>, qty: Seq<u8>, scale: DecimalScale) -> bool {
    &&& decimal_outcome(price, scale.price_decimals as nat) matches DecimalOutcome::Value(p) && p > 0
    &&& decimal_outcome(qty, scale.qty_decimals as nat) is Value
}

/// The book level a raw level reads as.
pub open spec fn level_value(price: Seq<u8>, qty: Seq<u8>, scale: DecimalScale) -> (int, int) {
    (
        decimal_outcome(price, scale.price_decimals as nat)->Value_0,
        decimal_outcome(qty, scale.qty_decimals as nat)->Value_0,
    )
}

/// A parsed value lies in `0..=i64::MAX`.
pub proof fn lemma_decimal_value_range(b: Seq<u8>, decimals: nat)
    requires
        decimal_outcome(b, decimals) is Value,
    ensures
        0 <= decimal_outcome(b, decimals)->Value_0 <= i64::MAX,
{
    let v = unsigned_part(b);
    let whole = whole_part(v);
    let fraction = fraction_part(v);
    let kept = kept_fraction(fraction, decimals);
    assert(all_digits(kept)) by {
        assert forall|i: int| 0 <= i < kept.len() implies is_digit(#[trigger] kept[i]) by {
            assert(kept[i] == fraction[i]);
        }
    }
    lemma_digits_value_bounds(whole);
    lemma_digits_value_bounds(kept);
    lemma_pow10_monotone(0, decimals);
    lemma_pow10_monotone(0, (decimals - kept.len()) as nat);
    let a = digits_value(whole);
    let p1 = pow10(decimals);
    let c = digits_value(kept);
    let p2 = pow10((decimals - kept.len()) as nat);
    assert(a * p1 + c * p2 >= 0) by (nonlinear_arith)
        requires
            a >= 0,
            p1 > 0,
            c >= 0,
            p2 > 0,
    ;
}

/// `e` is the error a refused raw level gives: the price's parse error,
/// else the quantity's, else `ZeroPrice`.
pub open spec fn level_error(e: FixtureError, price: Seq<u8>, qty: Seq<u8>, scale: DecimalScale) -> bool {
    if !(decimal_outcome(price, scale.price_decimals as nat) is Value) {
        parse_result(Err(e), price, scale.price_decimals)
    } else if !(decimal_outcome(qty, scale.qty_decimals as nat) is Value) {
        parse_result(Err(e), qty, scale.qty_decimals)
    } else {
        e == FixtureError::ZeroPrice
    }
}

/// The price and quantity bytes of the `i`th raw level.
pub open spec fn raw_price(levels: Seq<[String; 2]>, i: int) -> Seq<u8> {
    encode_utf8(levels[i][0]@)
}

/// The quantity bytes of the `i`th raw level.
pub open spec fn raw_qty(levels: Seq<[String; 2]>, i: int) -> Seq<u8> {
    encode_utf8(levels[i][1]@)
}

/// `result` is what normalizing the raw levels gives: every level read in
/// order, or the error of the first level that cannot be read.
pub open spec fn normalized(result: Result<Vec<Level>, FixtureError>, levels: Seq<[String; 2]>, scale: DecimalScale) -> bool {
    match result {
        Ok(v) => {
            &&& forall|i: int| 0 <= i < levels.len() ==> level_ok(raw_price(levels, i), raw_qty(levels, i), scale)
            &&& levels_view(v@) == Seq::new(
                levels.len(),
                |i: int| level_value(raw_price(levels, i), raw_qty(levels, i), scale),
            )
        },
        Err(e) => exists|i: int|
            0 <= i < levels.len() && (forall|j: int| 0 <= j < i ==> level_ok(raw_price(levels, j), raw_qty(levels, j), scale))
                && !level_ok(raw_price(levels, i), raw_qty(levels, i), scale) && level_error(
                e,
                raw_price(levels, i),
                raw_qty(levels, i),
                scale,
            ),
    }
}

/// Reads raw `[price, quantity]` text pairs as book levels.
fn normalize_levels(levels: &Vec<[String; 2]>, scale: DecimalScale) -> (result: Result<Vec<Level>, FixtureError>)
    ensures
        normalized(result, levels@, scale),
{
    let mut out: Vec<Level> = Vec::new();
    let mut i: usize = 0;
    while i < levels.len()
        invariant
            0 <= i <= levels.len(),
            forall|j: int| 0 <= j < i ==> level_ok(raw_price(levels@, j), raw_qty(levels@, j), scale),
            levels_view(out@) == Seq::new(
                i as nat,
                |j: int| level_value(raw_price(levels@, j), raw_qty(levels@, j), scale),
            ),
        decreases levels.len() - i,
    {
        let level = &levels[i];
        let price_text = level[0].as_str();
        let qty_text = level[1].as_str();
        let ghost pb = raw_price(levels@, i as int);
        let ghost qb = raw_qty(levels@, i as int);
        proof {
            assert(pb == price_text.spec_bytes());
            assert(qb == qty_text.spec_bytes());
        }
        let price = parse_decimal(price_text, scale.price_decimals);
        let price = match price {
            Ok(p) => p,
            Err(e) => {
                proof {
                    assert(!level_ok(pb, qb, scale));
                    assert(level_error(e, pb, qb, scale));
                }
                return Err(e);
            },
        };
        proof {
            lemma_decimal_value_range(pb, scale.price_decimals as nat);
        }
        let qty = match parse_decimal(qty_text, scale.qty_decimals) {
            Ok(q) => q,
            Err(e) => {
                proof {
                    assert(!level_ok(pb, qb, scale));
                    assert(level_error(e, pb, qb, scale));
                }
                return Err(e);
            },
        };
        proof {
            lemma_decimal_value_range(qb, scale.qty_decimals as nat);
        }
        let price_ticks = match PriceTicks::new(price) {
            Ok(p) => p,
            Err(_) => {
                proof {
                    assert(!level_ok(pb, qb, scale));
                    assert(level_error(FixtureError::ZeroPrice, pb, qb, scale));
                }
                return Err(FixtureError::ZeroPrice);
            },
        };
        let ghost before = out@;
        out.push((price_ticks, qty));
        i = i + 1;
        proof {
            assert(level_ok(pb, qb, scale));
            assert(level_view((price_ticks, qty)) == level_value(pb, qb, scale));
            assert(levels_view(out@) =~= levels_view(before).push(level_view((price_ticks, qty))));
            assert(levels_view(out@) =~= Seq::new(
                i as nat,
                |j: int| level_value(raw_price(levels@, j), raw_qty(levels@, j), scale),
            ));
        }
    }
    Ok(out)
}

/// A depth snapshot as the venue sends it, with decimal text levels.
#[derive(Debug, Clone, PartialEq, Eq)]
pub struct RawSnapshot {
    pub last_update_id: u64,
    pub bids: Vec<[String; 2]>,
    pub asks: Vec<[String; 2]>,
}

/// A depth update as the venue sends it, with decimal text levels.
#[derive(Debug, Clone, PartialEq, Eq)]
pub struct RawDepthDelta {
    pub event_time_ms: u64,
    pub symbol: String,
    pub first_update_id: u64,
    pub final_update_id: u64,
    pub bids: Vec<[String; 2]>,
    pub asks: Vec<[String; 2]>,
}

/// A venue depth update in book units.
#[derive(Debug, Clone, PartialEq, Eq)]
pub struct NormalizedDepthDelta {
    pub symbol: String,
    pub event_time_ms: u64,
    pub delta: Delta,
}

/// Converts a raw snapshot to book units: bids first, then asks; the first
/// level that cannot be read refuses the snapshot.
pub fn snapshot_from_raw(raw: RawSnapshot, scale: DecimalScale) -> (result: Result<Snapshot, FixtureError>)
    ensures
        match result {
            Ok(s) => s.sequence == raw.last_update_id && normalized(Ok(s.bids), raw.bids@, scale) && normalized(
                Ok(s.asks),
                raw.asks@,
                scale,
            ),
            Err(e) => normalized(Err(e), raw.bids@, scale) || (exists|b: Vec<Level>|
                normalized(Ok(b), raw.bids@, scale)) && normalized(Err(e), raw.asks@, scale),
        },
{
    let bids = match normalize_levels(&raw.bids, scale) {
        Ok(b) => b,
        Err(e) => return Err(e),
    };
    let asks = match normalize_levels(&raw.asks, scale) {
        Ok(a) => a,
        Err(e) => return Err(e),
    };
    Ok(Snapshot { sequence: raw.last_update_id, bids, asks })
}

/// Converts a raw depth update to book units: bids first, then asks; the
/// first level that cannot be read refuses the update.
pub fn delta_from_raw(raw: RawDepthDelta, scale: DecimalScale) -> (result: Result<NormalizedDepthDelta, FixtureError>)
    ensures
        match result {
            Ok(d) => d.symbol@ == raw.symbol@ && d.event_time_ms == raw.event_time_ms && d.delta.first_sequence
                == raw.first_update_id && d.delta.last_sequence == raw.final_update_id && normalized(
                Ok(d.delta.bids),
                raw.bids@,
                scale,
            ) && normalized(Ok(d.delta.asks), raw.asks@, scale),
            Err(e) => normalized(Err(e), raw.bids@, scale) || (exists|b: Vec<Level>|
                normalized(Ok(b), raw.bids@, scale)) && normalized(Err(e), raw.asks@, scale),
        },
{
    let bids = match normalize_levels(&raw.bids, scale) {
        Ok(b) => b,
        Err(e) => return Err(e),
    };
    let asks = match normalize_levels(&raw.asks, scale) {
        Ok(a) => a,
        Err(e) => return Err(e),
    };
    Ok(NormalizedDepthDelta {
        symbol: raw.symbol,
        event_time_ms: raw.event_time_ms,
        delta: Delta {
            first_sequence: raw.first_update_id,
            last_sequence: raw.final_update_id,
            bids,
            asks,
        },
    })
}

/// `10^a * 10^b == 10^(a+b)`.
proof fn lemma_pow10_sum(a: nat, b: nat)
    ensures
        pow10(a) * pow10(b) == pow10(a + b),
    decreases a,
{
    if a > 0 {
        lemma_pow10_sum((a - 1) as nat, b);
        assert(pow10(a) * pow10(b) == 10 * (pow10((a - 1) as nat) * pow10(b))) by (nonlinear_arith)
            requires
                pow10(a) == 10 * pow10((a - 1) as nat),
        ;
    }
}

} // verus!
