//! Trade analytics: dates of statements, FIFO round-trip matching, and the exact
//! aggregates the performance metrics are computed from.

use vstd::prelude::*;

use crate::market_hours::{days_from_civil, days_spec};
use vstd::string::StringSliceAdditionalSpecFns;

verus! {

// ── dates ────────────────────────────────────────────────────────────────────

/// `b` with every `-` byte removed.
pub open spec fn without_dashes(b: Seq<u8>) -> Seq<u8>
    decreases b.len(),
{
    if b.len() == 0 {
        b
    } else if b.last() == 0x2d {
        without_dashes(b.drop_last())
    } else {
        without_dashes(b.drop_last()).push(b.last())
    }
}

pub open spec fn is_digit_byte(c: u8) -> bool {
    0x30 <= c <= 0x39
}

/// The value of a run of digit bytes.
pub open spec fn byte_digits_value(ds: Seq<u8>) -> nat
    decreases ds.len(),
{
    if ds.len() == 0 {
        0
    } else {
        byte_digits_value(ds.drop_last()) * 10 + (ds.last() - 0x30) as nat
    }
}

/// What `str::parse` gives for an unsigned field made of `s` (no `-` in it): an
/// optional `+`, then one or more digits, the value at most `max`.
pub open spec fn parse_field(s: Seq<u8>, max: nat) -> Option<nat> {
    let body = field_body(s);
    if body.len() > 0 && all_digit_bytes(body) && byte_digits_value(body) <= max {
        Some(byte_digits_value(body))
    } else {
        None
    }
}

/// `s` without one leading `+`.
pub open spec fn field_body(s: Seq<u8>) -> Seq<u8> {
    if s.len() > 0 && s[0] == 0x2b {
        s.drop_first()
    } else {
        s
    }
}

/// Every byte of `b` is a decimal digit.
pub open spec fn all_digit_bytes(b: Seq<u8>) -> bool {
    forall|i: int| 0 <= i < b.len() ==> is_digit_byte(#[trigger] b[i])
}

/// The UTF-8 text `b` can be cut at byte `k` (a character starts there, or it ends).
pub open spec fn cuttable(b: Seq<u8>, k: int) -> bool {
    k == b.len() || (0 <= k < b.len() && !(0x80 <= b[k] <= 0xbf))
}

/// A date text whose dash-free form can be cut into its `YYYY`, `MM` and `DD` fields
/// (always so for ASCII text).
pub open spec fn date_text_ok(text: Seq<u8>) -> bool {
    let t = without_dashes(text);
    t.len() >= 8 ==> cuttable(t, 4) && cuttable(t, 6) && cuttable(t, 8)
}

/// `(year, month, day)` of a statement date such as `20240315` or `2024-03-15;10:00:00`:
/// the dashes are dropped, and the first eight bytes left are read as `YYYYMMDD`; `None`
/// when fewer than eight remain or a field does not parse.
pub open spec fn date_spec(text: Seq<u8>) -> Option<(int, int, int)> {
    let t = without_dashes(text);
    if t.len() < 8 {
        None
    } else {
        match (
            parse_field(t.subrange(0, 4), i32::MAX as nat),
            parse_field(t.subrange(4, 6), u32::MAX as nat),
            parse_field(t.subrange(6, 8), u32::MAX as nat),
        ) {
            (Some(y), Some(m), Some(d)) => Some((y as int, m as int, d as int)),
            _ => None,
        }
    }
}

/// Drop the dashes of a byte string.
fn strip_dashes(b: &[u8]) -> (r: Vec<u8>)
    ensures
        r@ == without_dashes(b@),
{
    let mut out: Vec<u8> = Vec::new();
    let mut i: usize = 0;
    while i < b.len()
        invariant
            i <= b@.len(),
            out@ == without_dashes(b@.take(i as int)),
        decreases b.len() - i,
    {
        proof {
            assert(b@.take(i as int + 1).drop_last() =~= b@.take(i as int));
        }
        if b[i] != 0x2d {
            out.push(b[i]);
        }
        i = i + 1;
    }
    proof {
        assert(b@.take(i as int) =~= b@);
    }
    out
}

/// Parse the bytes `b[lo..hi]` as an unsigned field no larger than `max`.
fn parse_field_at(b: &Vec<u8>, lo: usize, hi: usize, max: u64) -> (r: Option<u64>)
    requires
        lo <= hi <= b@.len(),
        hi - lo <= 4,
    ensures
        r == (match parse_field(b@.subrange(lo as int, hi as int), max as nat) {
            Some(v) => Some(v as u64),
            None => None,
        }),
{
    let ghost s = b@.subrange(lo as int, hi as int);
    let start: usize = if lo < hi && b[lo] == 0x2b {
        lo + 1
    } else {
        lo
    };
    let ghost body = b@.subrange(start as int, hi as int);
    proof {
        if lo < hi && b@[lo as int] == 0x2b {
            assert(body =~= s.drop_first());
        } else {
            assert(body =~= s);
        }
    }
    if start >= hi {
        proof {
            assert(body.len() == 0);
        }
        return None;
    }
    let mut acc: u64 = 0;
    let mut i = start;
    proof {
        assert(body.take(0) =~= Seq::<u8>::empty());
    }
    while i < hi
        invariant
            lo <= start <= i <= hi <= b@.len(),
            hi - start <= 4,
            body == b@.subrange(start as int, hi as int),
            s == b@.subrange(lo as int, hi as int),
            body == field_body(s),
            forall|j: int| 0 <= j < i - start ==> is_digit_byte(#[trigger] body[j]),
            acc == byte_digits_value(body.take(i - start)),
            i - start <= 4,
            acc < pow10(i - start),
            pow10(i - start) <= 10000,
        decreases hi - i,
    {
        let c = b[i];
        if c < 0x30 || c > 0x39 {
            proof {
                assert(body[i - start] == c);
                assert(!is_digit_byte(body[i - start]));
                assert(0 <= i - start < body.len());
                assert(!all_digit_bytes(body));
                assert(parse_field(s, max as nat) is None);
            }
            return None;
        }
        proof {
            assert(body.take(i - start + 1).drop_last() =~= body.take(i - start));
            assert(body[i - start] == c);
        }
        proof {
            let k = i - start;
            reveal_with_fuel(pow10, 5);
            assert(pow10(k + 1) == 10 * pow10(k));
            assert(acc * 10 + (c - 0x30) < pow10(k + 1)) by (nonlinear_arith)
                requires
                    acc < pow10(k),
                    pow10(k + 1) == 10 * pow10(k),
                    0 <= c - 0x30 <= 9,
            ;
            assert(k + 1 <= 4);
            assert(pow10(k + 1) <= 10000);
        }
        acc = acc * 10 + (c - 0x30) as u64;
        i = i + 1;
    }
    proof {
        assert(body.take(i - start) =~= body);
    }
    if acc <= max {
        Some(acc)
    } else {
        None
    }
}

pub open spec fn pow10(n: int) -> int
    decreases n,
{
    if n <= 0 {
        1
    } else {
        10 * pow10(n - 1)
    }
}

/// `(year, month, day)` of a statement date, as [`date_spec`] reads it.
pub fn parse_date(s: &str) -> (r: Option<(i32, u32, u32)>)
    requires
        date_text_ok(s.spec_bytes()),
    ensures
        match date_spec(s.spec_bytes()) {
            Some((y, m, d)) => r == Some((y as i32, m as u32, d as u32)),
            None => r is None,
        },
{
    let t = strip_dashes(s.as_bytes());
    if t.len() < 8 {
        return None;
    }
    let y = parse_field_at(&t, 0, 4, i32::MAX as u64);
    let m = parse_field_at(&t, 4, 6, u32::MAX as u64);
    let d = parse_field_at(&t, 6, 8, u32::MAX as u64);
    match (y, m, d) {
        (Some(y), Some(m), Some(d)) => Some((y as i32, m as u32, d as u32)),
        _ => None,
    }
}

/// Whole days between two statement dates (0 when either does not parse).
pub open spec fn days_between_spec(a: Seq<u8>, b: Seq<u8>) -> int {
    match (date_spec(a), date_spec(b)) {
        (Some((ya, ma, da)), Some((yb, mb, db))) => {
            let x = days_spec(yb, mb, db) - days_spec(ya, ma, da);
            if x < 0 {
                -x
            } else {
                x
            }
        },
        _ => 0,
    }
}

/// Whole days between two statement dates (0 when either does not parse).
pub fn days_between(a: &str, b: &str) -> (r: i64)
    requires
        date_text_ok(a.spec_bytes()),
        date_text_ok(b.spec_bytes()),
    ensures
        r == days_between_spec(a.spec_bytes(), b.spec_bytes()),
{
    let da = parse_date(a);
    let db = parse_date(b);
    match (da, db) {
        (Some((ya, ma, dda)), Some((yb, mb, ddb))) => {
            let x = days_from_civil(ya as i64, ma, dda);
            let y = days_from_civil(yb as i64, mb, ddb);
            proof {
                lemma_days_bound(ya as int, ma as int, dda as int);
                lemma_days_bound(yb as int, mb as int, ddb as int);
            }
            if y >= x {
                y - x
            } else {
                x - y
            }
        },
        _ => 0,
    }
}

/// Day numbers of parsed dates stay far inside `i64`.
proof fn lemma_days_bound(y: int, m: int, d: int)
    requires
        0 <= y <= i32::MAX,
        0 <= m <= u32::MAX,
        0 <= d <= u32::MAX,
    ensures
        -0x1000_0000_0000_0000 <= days_spec(y, m, d) <= 0x1000_0000_0000_0000,
{
    let yy = if m <= 2 {
        y - 1
    } else {
        y
    };
    let era = yy / 400;
    let yoe = yy - era * 400;
    assert(0 <= yoe < 400 && -1 <= era <= i32::MAX / 400 + 1) by (nonlinear_arith)
        requires
            era == yy / 400,
            yoe == yy - era * 400,
            -1 <= yy <= i32::MAX,
    ;
}

} // verus!
