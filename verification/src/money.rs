//! Exact currency amounts: text to integer cents and back.
//!
//! An amount is a count of cents held in an `i64`. Text is handled as bytes;
//! only ASCII digits, a sign, `.` and `,` can appear in a well-formed amount.

use vstd::prelude::*;
use vstd::string::StringSliceAdditionalSpecFns;
use crate::error::ReportError;

verus! {

/// A signed count of cents.
pub type Cents = i64;

/// The decimal separator.
pub const DOT: u8 = 46;

/// The thousands separator.
pub const COMMA: u8 = 44;

/// Punctuation that is removed before the digits are read.
pub open spec fn is_punct(b: u8) -> bool {
    b == DOT || b == COMMA
}

/// An ASCII decimal digit.
pub open spec fn is_digit(b: u8) -> bool {
    48 <= b <= 57
}

/// `s` without its `.` and `,` bytes.
pub open spec fn strip_punct(s: Seq<u8>) -> Seq<u8>
    decreases s.len(),
{
    if s.len() == 0 {
        Seq::empty()
    } else if is_punct(s.last()) {
        strip_punct(s.drop_last())
    } else {
        strip_punct(s.drop_last()).push(s.last())
    }
}

/// Every byte of `s` is a digit.
pub open spec fn all_digits(s: Seq<u8>) -> bool {
    forall|i: int| 0 <= i < s.len() ==> is_digit(#[trigger] s[i])
}

/// The number that the digits of `s` write in base ten.
pub open spec fn digits_value(s: Seq<u8>) -> int
    decreases s.len(),
{
    if s.len() == 0 {
        0
    } else {
        digits_value(s.drop_last()) * 10 + (s.last() - 48)
    }
}

/// `s` starts with `+` or `-`.
pub open spec fn has_sign(s: Seq<u8>) -> bool {
    s.len() > 0 && (s[0] == 43 || s[0] == 45)
}

/// The integer that `s` writes: an optional sign, then one or more digits.
pub open spec fn integer_value(s: Seq<u8>) -> Option<int> {
    let body = if has_sign(s) {
        s.subrange(1, s.len() as int)
    } else {
        s
    };
    if body.len() == 0 || !all_digits(body) {
        None
    } else if has_sign(s) && s[0] == 45 {
        Some(-digits_value(body))
    } else {
        Some(digits_value(body))
    }
}

/// The number of bytes that follow the last `.` of `s`; the length of `s`
/// where it holds no `.`.
pub open spec fn tail_len(s: Seq<u8>) -> nat
    decreases s.len(),
{
    if s.len() == 0 || s.last() == DOT {
        0
    } else {
        1 + tail_len(s.drop_last())
    }
}

/// The factor that turns the integer read from `s` into cents: 100 without
/// decimal digits, 10 with one, 1 with two, none with more.
pub open spec fn scale(s: Seq<u8>) -> Option<int> {
    if !s.contains(DOT) || tail_len(s) == 0 {
        Some(100)
    } else if tail_len(s) == 1 {
        Some(10)
    } else if tail_len(s) == 2 {
        Some(1)
    } else {
        None
    }
}

/// The cents that the amount `s` stands for, where it is well formed and the
/// result fits in an `i64`.
pub open spec fn cents_of(s: Seq<u8>) -> Option<int> {
    match (scale(s), integer_value(strip_punct(s))) {
        (Some(m), Some(v)) => if i64::MIN <= v * m <= i64::MAX {
            Some(v * m)
        } else {
            None
        },
        _ => None,
    }
}

/// What `parse_cents` returns on `s`.
pub open spec fn parsed(s: Seq<u8>) -> Result<Cents, ReportError> {
    match cents_of(s) {
        Some(c) => Ok(c as i64),
        None => Err(ReportError::MalformedAmount),
    }
}

/// The value of a prefix of digits never exceeds the value of the whole.
pub proof fn lemma_digits_prefix(s: Seq<u8>, i: int)
    requires
        0 <= i <= s.len(),
    ensures
        all_digits(s) ==> 0 <= digits_value(s.take(i)) <= digits_value(s),
    decreases s.len() - i,
{
    lemma_digits_nonneg(s.take(i));
    if i == s.len() {
        assert(s.take(i) =~= s);
    } else if all_digits(s) {
        lemma_digits_prefix(s, i + 1);
        assert(s.take(i + 1).drop_last() =~= s.take(i));
        assert(is_digit(s[i]));
    }
}

/// The value of a run of digits is never negative.
proof fn lemma_digits_nonneg(s: Seq<u8>)
    ensures
        all_digits(s) ==> 0 <= digits_value(s),
        s.len() == 0 ==> digits_value(s) == 0,
    decreases s.len(),
{
    if s.len() > 0 && all_digits(s) {
        lemma_digits_nonneg(s.drop_last());
        assert(is_digit(s[s.len() - 1]));
    }
}

/// Removes `.` and `,` from `text`.
pub fn remove_punct(text: &[u8]) -> (out: Vec<u8>)
    ensures
        out@ == strip_punct(text@),
{
    let mut out: Vec<u8> = Vec::new();
    let mut i: usize = 0;
    while i < text.len()
        invariant
            i <= text.len(),
            out@ == strip_punct(text@.take(i as int)),
        decreases text.len() - i,
    {
        let b: u8 = text[i];
        proof {
            assert(text@.take(i + 1).drop_last() =~= text@.take(i as int));
        }
        if b != DOT && b != COMMA {
            out.push(b);
        }
        i += 1;
    }
    proof {
        assert(text@.take(i as int) =~= text@);
    }
    out
}

/// The number of bytes after the last `.` of `text`, capped at three, and
/// whether `text` holds a `.` at all.
fn count_decimals(text: &[u8]) -> (r: (bool, usize))
    ensures
        r.0 == text@.contains(DOT),
        r.1 <= 3,
        r.1 < 3 ==> r.1 == tail_len(text@),
        r.1 == 3 ==> tail_len(text@) >= 3,
{
    let n: usize = text.len();
    let mut i: usize = n;
    proof {
        assert(text@.take(n as int) =~= text@);
    }
    while i > 0 && text[i - 1] != DOT && n - i < 3
        invariant
            i <= n,
            n == text.len(),
            n - i <= 3,
            forall|j: int| i <= j < n ==> text@[j] != DOT,
            tail_len(text@) == (n - i) + tail_len(text@.take(i as int)),
        decreases i,
    {
        proof {
            assert(text@.take(i as int).drop_last() =~= text@.take(i - 1));
        }
        i -= 1;
    }
    let count: usize = n - i;
    if count == 3 {
        return (find_dot(text, i), 3);
    }
    if i == 0 {
        proof {
            assert(text@.take(0).len() == 0);
            assert(!text@.contains(DOT));
        }
        (false, count)
    } else {
        proof {
            assert(text@[i - 1] == DOT);
            assert(text@.take(i as int).last() == DOT);
        }
        (true, count)
    }
}

/// Whether one of the first `end` bytes of `text` is a `.`, given that none
/// of the others is.
fn find_dot(text: &[u8], end: usize) -> (found: bool)
    requires
        end <= text.len(),
        forall|j: int| end <= j < text.len() ==> text@[j] != DOT,
    ensures
        found == text@.contains(DOT),
{
    let mut i: usize = 0;
    while i < end
        invariant
            i <= end <= text.len(),
            forall|j: int| 0 <= j < i ==> text@[j] != DOT,
        decreases end - i,
    {
        if text[i] == DOT {
            return true;
        }
        i += 1;
    }
    false
}

/// Reads an optional sign and at least one digit as an `i64`.
#[verifier::loop_isolation(false)]
pub fn parse_integer(text: &[u8]) -> (r: Option<i64>)
    ensures
        match integer_value(text@) {
            Some(v) => if i64::MIN <= v <= i64::MAX {
                r == Some(v as i64)
            } else {
                r is None
            },
            None => r is None,
        },
{
    let n: usize = text.len();
    let signed: bool = n > 0 && (text[0] == 43 || text[0] == 45);
    let negative: bool = signed && text[0] == 45;
    let start: usize = if signed {
        1
    } else {
        0
    };
    let ghost body = text@.subrange(start as int, n as int);
    proof {
        assert(signed == has_sign(text@));
        if !signed {
            assert(body =~= text@);
        }
    }
    if start == n {
        return None;
    }
    let limit: u64 = 0x8000_0000_0000_0000;
    let mut acc: u64 = 0;
    let mut i: usize = start;
    while i < n
        invariant
            start <= i <= n,
            n == text.len(),
            body == text@.subrange(start as int, n as int),
            all_digits(body.take(i - start)),
            acc == digits_value(body.take(i - start)),
            acc <= limit,
            limit == 0x8000_0000_0000_0000,
        decreases n - i,
    {
        let b: u8 = text[i];
        proof {
            assert(body[i - start] == b);
            assert(body.take(i - start + 1).drop_last() =~= body.take(i - start));
        }
        if b < 48 || b > 57 {
            proof {
                assert(!is_digit(body[i - start]));
            }
            return None;
        }
        let d: u64 = (b - 48) as u64;
        if acc > (limit - d) / 10 {
            proof {
                assert(acc * 10 + d > limit);
                lemma_digits_prefix(body, i - start + 1);
                if all_digits(body) {
                    assert(digits_value(body) > limit);
                }
            }
            return None;
        }
        acc = acc * 10 + d;
        i += 1;
    }
    proof {
        assert(body.take(i - start) =~= body);
    }
    if negative {
        if acc == limit {
            Some(i64::MIN)
        } else {
            Some(-(acc as i64))
        }
    } else if acc == limit {
        None
    } else {
        Some(acc as i64)
    }
}

/// Converts a textual amount into cents.
///
/// All `.` and `,` are removed and the rest is read as an integer. The bytes
/// after the last `.` decide the scale: none (or no `.` at all) multiplies by
/// 100, one by 10, two by 1. Anything else is a malformed amount.
pub fn parse_cents(text: &[u8]) -> (r: Result<Cents, ReportError>)
    ensures
        r == parsed(text@),
{
    let (dotted, count) = count_decimals(text);
    let factor: i64 = if !dotted || count == 0 {
        100
    } else if count == 1 {
        10
    } else if count == 2 {
        1
    } else {
        return Err(ReportError::MalformedAmount);
    };
    let digits = remove_punct(text);
    match parse_integer(digits.as_slice()) {
        None => {
            proof {
                let v = integer_value(strip_punct(text@));
                if v is Some {
                    lemma_scaled_out_of_range(v.unwrap(), factor as int);
                }
            }
            Err(ReportError::MalformedAmount)
        },
        Some(v) => match v.checked_mul(factor) {
            Some(c) => Ok(c),
            None => Err(ReportError::MalformedAmount),
        },
    }
}

/// A value outside the range of `i64` stays outside it when multiplied by a
/// positive factor.
proof fn lemma_scaled_out_of_range(v: int, m: int)
    requires
        m >= 1,
        v < i64::MIN || v > i64::MAX,
    ensures
        v * m < i64::MIN || v * m > i64::MAX,
{
    assert(v > i64::MAX ==> v * m >= v) by (nonlinear_arith)
        requires
            m >= 1,
    ;
    assert(v < i64::MIN ==> v * m <= v) by (nonlinear_arith)
        requires
            m >= 1,
    ;
}

/// Converts a textual amount into cents; see [`parse_cents`].
pub fn handle_punct(total: &str) -> (r: Result<Cents, ReportError>)
    ensures
        r == parsed(total.spec_bytes()),
{
    parse_cents(total.as_bytes())
}

/// The decimal digits of `n`, without leading zeros.
pub open spec fn digits_of(n: nat) -> Seq<u8>
    decreases n,
{
    if n < 10 {
        seq![(48 + n) as u8]
    } else {
        digits_of(n / 10).push((48 + n % 10) as u8)
    }
}

/// The sign and the whole units of `c` cents, as text.
pub open spec fn whole_of(c: int) -> Seq<u8> {
    if c < 0 {
        seq![45u8] + digits_of(((-c) / 100) as nat)
    } else {
        digits_of((c / 100) as nat)
    }
}

/// `c` cents as a decimal number of whole units: the sign, the units, and
/// the cents behind a `.` as far as they are not zero.
pub open spec fn dollars_of(c: int) -> Seq<u8> {
    let m = if c < 0 {
        -c
    } else {
        c
    };
    let frac = m % 100;
    if frac == 0 {
        whole_of(c)
    } else if frac % 10 == 0 {
        whole_of(c).push(DOT).push((48 + frac / 10) as u8)
    } else {
        whole_of(c).push(DOT).push((48 + frac / 10) as u8).push((48 + frac % 10) as u8)
    }
}

/// No byte of `s` is punctuation.
pub open spec fn no_punct(s: Seq<u8>) -> bool {
    forall|i: int| 0 <= i < s.len() ==> !is_punct(#[trigger] s[i])
}

/// Text without punctuation is left as it is.
pub proof fn lemma_strip_clean(s: Seq<u8>)
    requires
        no_punct(s),
    ensures
        strip_punct(s) == s,
    decreases s.len(),
{
    if s.len() > 0 {
        assert(!is_punct(s[s.len() - 1]));
        lemma_strip_clean(s.drop_last());
        assert(s.drop_last().push(s.last()) =~= s);
    } else {
        assert(s =~= Seq::empty());
    }
}

/// The digits of a number are digits, and write that number.
pub proof fn lemma_digits_of(n: nat)
    ensures
        digits_of(n).len() > 0,
        all_digits(digits_of(n)),
        digits_value(digits_of(n)) == n,
    decreases n,
{
    if n < 10 {
        let s = digits_of(n);
        assert(s.drop_last() =~= Seq::<u8>::empty());
        assert(digits_value(s.drop_last()) == 0);
    } else {
        lemma_digits_of(n / 10);
        let s = digits_of(n);
        assert(s.drop_last() =~= digits_of(n / 10));
    }
}

/// Digits with one more digit write ten times the number, plus the digit.
proof fn lemma_digits_push(s: Seq<u8>, d: u8)
    requires
        all_digits(s),
        is_digit(d),
    ensures
        all_digits(s.push(d)),
        digits_value(s.push(d)) == digits_value(s) * 10 + (d - 48),
{
    assert(s.push(d).drop_last() =~= s);
}

/// Signed digits are read as the number they write.
proof fn lemma_signed_value(negative: bool, body: Seq<u8>)
    requires
        body.len() > 0,
        all_digits(body),
    ensures
        integer_value(
            if negative {
                seq![45u8] + body
            } else {
                body
            },
        ) == Some(
            if negative {
                -digits_value(body)
            } else {
                digits_value(body)
            },
        ),
{
    if negative {
        let t = seq![45u8] + body;
        assert(t[0] == 45);
        assert(t.subrange(1, t.len() as int) =~= body);
    } else {
        assert(is_digit(body[0]));
    }
}

/// The cents of a text with a given scale and integer.
proof fn lemma_cents_of(s: Seq<u8>, m: int, v: int)
    requires
        scale(s) == Some(m),
        integer_value(strip_punct(s)) == Some(v),
        i64::MIN <= v * m <= i64::MAX,
    ensures
        cents_of(s) == Some(v * m),
{
}

/// Law: an amount survives the way out and back. Every amount of cents,
/// written as whole units by [`dollars_of`], is read back by [`cents_of`] as
/// the same amount.
pub proof fn lemma_round_trip(c: int)
    requires
        i64::MIN <= c <= i64::MAX,
    ensures
        cents_of(dollars_of(c)) == Some(c),
{
    let negative = c < 0;
    let m = if negative {
        -c
    } else {
        c
    };
    let q = (m / 100) as nat;
    let frac = m % 100;
    let body = digits_of(q);
    let w = whole_of(c);
    lemma_digits_of(q);
    assert(w == if negative {
        seq![45u8] + body
    } else {
        body
    });
    assert(no_punct(w)) by {
        assert forall|i: int| 0 <= i < w.len() implies !is_punct(#[trigger] w[i]) by {
            if negative {
                if i > 0 {
                    assert(is_digit(body[i - 1]));
                }
            } else {
                assert(is_digit(body[i]));
            }
        }
    }
    lemma_strip_clean(w);
    let d1 = (48 + frac / 10) as u8;
    let d2 = (48 + frac % 10) as u8;
    if frac == 0 {
        lemma_signed_value(negative, body);
        assert(!w.contains(DOT)) by {
            if w.contains(DOT) {
                let i = choose|i: int| 0 <= i < w.len() && w[i] == DOT;
                assert(is_punct(w[i]));
            }
        }
        assert(dollars_of(c) == w);
        assert(scale(w) == Some(100int));
        assert(digits_value(body) * 100 == m);
        let v = if negative {
            -(q as int)
        } else {
            q as int
        };
        assert(v * 100 == c);
        lemma_cents_of(w, 100, v);
    } else if frac % 10 == 0 {
        let t = w.push(DOT).push(d1);
        assert(t.drop_last() =~= w.push(DOT));
        assert(w.push(DOT).drop_last() =~= w);
        assert(tail_len(w.push(DOT)) == 0);
        assert(tail_len(t) == 1);
        assert(t[w.len() as int] == DOT);
        assert(strip_punct(w.push(DOT)) == w);
        assert(strip_punct(t) == w.push(d1));
        lemma_digits_push(body, d1);
        lemma_signed_value(negative, body.push(d1));
        assert(w.push(d1) =~= if negative {
            seq![45u8] + body.push(d1)
        } else {
            body.push(d1)
        });
        assert(dollars_of(c) == t);
        assert(t.contains(DOT));
        assert(scale(t) == Some(10int));
        assert(digits_value(body.push(d1)) * 10 == m);
        let v = if negative {
            -digits_value(body.push(d1))
        } else {
            digits_value(body.push(d1))
        };
        assert(v * 10 == c);
        lemma_cents_of(t, 10, v);
    } else {
        let u = w.push(DOT).push(d1);
        let t = u.push(d2);
        assert(t.drop_last() =~= u);
        assert(u.drop_last() =~= w.push(DOT));
        assert(w.push(DOT).drop_last() =~= w);
        assert(tail_len(w.push(DOT)) == 0);
        assert(tail_len(u) == 1);
        assert(tail_len(t) == 2);
        assert(t[w.len() as int] == DOT);
        assert(strip_punct(w.push(DOT)) == w);
        assert(strip_punct(u) == w.push(d1));
        assert(strip_punct(t) == w.push(d1).push(d2));
        lemma_digits_push(body, d1);
        lemma_digits_push(body.push(d1), d2);
        lemma_signed_value(negative, body.push(d1).push(d2));
        assert(w.push(d1).push(d2) =~= if negative {
            seq![45u8] + body.push(d1).push(d2)
        } else {
            body.push(d1).push(d2)
        });
        assert(dollars_of(c) == t);
        assert(t.contains(DOT));
        assert(scale(t) == Some(1int));
        assert(digits_value(body.push(d1).push(d2)) == m);
        let v = if negative {
            -digits_value(body.push(d1).push(d2))
        } else {
            digits_value(body.push(d1).push(d2))
        };
        assert(v * 1 == c);
        lemma_cents_of(t, 1, v);
    }
}

/// Law: reading, writing and reading again gives what the first reading
/// gave. For every text that is a well-formed amount, the cents read from it
/// are the cents read from their own rendering.
pub proof fn lemma_read_write_read(s: Seq<u8>)
    requires
        cents_of(s) is Some,
    ensures
        cents_of(dollars_of(cents_of(s)->Some_0)) == cents_of(s),
{
    lemma_round_trip(cents_of(s)->Some_0);
}

/// Writes the decimal digits of `n`.
pub fn render_digits(n: u64) -> (out: Vec<u8>)
    ensures
        out@ == digits_of(n as nat),
    decreases n,
{
    if n < 10 {
        let mut out: Vec<u8> = Vec::new();
        out.push(48 + n as u8);
        proof {
            assert(out@ =~= digits_of(n as nat));
        }
        out
    } else {
        let mut out = render_digits(n / 10);
        out.push(48 + (n % 10) as u8);
        out
    }
}

/// Writes cents as a decimal number of whole units, exactly and without
/// trailing zeros: `100` as `1`, `150` as `1.5`, `-5` as `-0.05`.
pub fn format_dollars(cents: Cents) -> (text: Vec<u8>)
    ensures
        text@ == dollars_of(cents as int),
        parsed(text@) == Ok::<Cents, ReportError>(cents),
{
    let magnitude: u64 = if cents < 0 {
        (-(cents as i128)) as u64
    } else {
        cents as u64
    };
    let digits = render_digits(magnitude / 100);
    let mut text: Vec<u8> = Vec::new();
    if cents < 0 {
        text.push(45u8);
    }
    let ghost sign = text@;
    let mut i: usize = 0;
    while i < digits.len()
        invariant
            i <= digits.len(),
            text@ == sign + digits@.take(i as int),
        decreases digits.len() - i,
    {
        text.push(digits[i]);
        proof {
            assert(digits@.take(i + 1) =~= digits@.take(i as int).push(digits@[i as int]));
        }
        i += 1;
    }
    proof {
        assert(digits@.take(i as int) =~= digits@);
        assert(text@ =~= whole_of(cents as int));
        lemma_round_trip(cents as int);
    }
    let frac: u8 = (magnitude % 100) as u8;
    if frac != 0 {
        text.push(DOT);
        text.push(48 + frac / 10);
        if frac % 10 != 0 {
            text.push(48 + frac % 10);
        }
    }
    text
}

/// The price of one unit: the total divided by the quantity, rounded towards
/// zero. Where the quotient does not exist (quantity zero) or does not fit,
/// the total itself.
pub open spec fn unit_cents(total: Cents, quantity: i64) -> Cents {
    let t = total as int;
    let q = quantity as int;
    if q == 0 || (t == i64::MIN && q == -1) {
        total
    } else if t >= 0 && q > 0 {
        (t / q) as i64
    } else if t < 0 && q < 0 {
        ((-t) / (-q)) as i64
    } else if t < 0 {
        (-((-t) / q)) as i64
    } else {
        (-(t / (-q))) as i64
    }
}

/// Computes the price of one unit from a total and a quantity.
pub fn per_unit(total: Cents, quantity: i64) -> (unit: Cents)
    ensures
        unit == unit_cents(total, quantity),
        quantity == 0 ==> unit == total,
{
    let r = total.checked_div(quantity);
    proof {
        if quantity != 0 {
            lemma_quotient(total as int, quantity as int);
        }
    }
    match r {
        Some(q) => q,
        None => total,
    }
}

/// The quotient of two `i64` values, rounded towards zero, leaves the range
/// of `i64` only for the least value divided by minus one.
proof fn lemma_quotient(x: int, d: int)
    requires
        i64::MIN <= x <= i64::MAX,
        i64::MIN <= d <= i64::MAX,
        d != 0,
    ensures
        x >= 0 && d > 0 ==> 0 <= x / d <= x,
        x < 0 && d < 0 ==> 0 <= (-x) / (-d) <= -x,
        x < 0 && d > 0 ==> 0 <= (-x) / d <= -x,
        x >= 0 && d < 0 ==> 0 <= x / (-d) <= x,
        x * -1 == -x,
        d * -1 == -d,
        x == i64::MIN && d == -1 ==> (-x) / (-d) == -x,
        x == 0 ==> x / d == 0 && x / (-d) == 0,
        x < 0 && d < -1 ==> (-x) / (-d) < -x,
{
    assert(x < 0 && d < -1 ==> (-x) / (-d) < -x) by (nonlinear_arith);
    assert(x == 0 ==> x / d == 0 && x / (-d) == 0) by (nonlinear_arith)
        requires
            d != 0,
    ;
    assert(d == -1 ==> (-x) / (-d) == -x) by (nonlinear_arith);
    assert(x >= 0 && d > 0 ==> 0 <= x / d <= x) by (nonlinear_arith);
    assert(x < 0 && d < 0 ==> 0 <= (-x) / (-d) <= -x) by (nonlinear_arith);
    assert(x < 0 && d > 0 ==> 0 <= (-x) / d <= -x) by (nonlinear_arith);
    assert(x >= 0 && d < 0 ==> 0 <= x / (-d) <= x) by (nonlinear_arith);
}

} // verus!
