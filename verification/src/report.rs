//! The layout of the PDF performance report and of the monthly-returns heat map: which
//! pages and sections are printed, how statement dates are shown, how a trade row reads,
//! and how the heat-map grid is sized.

use vstd::prelude::*;

use crate::model::PRICE_SCALE;
use crate::round_trips::{RoundTrip, TripView};
use crate::text::{decimal, push_decimal};

verus! {

// ── dates ────────────────────────────────────────────────────────────────────

/// UTF-8 length of a character.
pub open spec fn utf8_width(c: char) -> int {
    if (c as u32) < 0x80 {
        1
    } else if (c as u32) < 0x800 {
        2
    } else if (c as u32) < 0x10000 {
        3
    } else {
        4
    }
}

/// UTF-8 length of a text.
pub open spec fn utf8_len(s: Seq<char>) -> int
    decreases s.len(),
{
    if s.len() == 0 {
        0
    } else {
        utf8_len(s.drop_last()) + utf8_width(s.last())
    }
}

/// `s` without its `-` characters.
pub open spec fn undashed(s: Seq<char>) -> Seq<char>
    decreases s.len(),
{
    if s.len() == 0 {
        s
    } else if s.last() == '-' {
        undashed(s.drop_last())
    } else {
        undashed(s.drop_last()).push(s.last())
    }
}

/// The number of leading characters of `s` that make up exactly `b` bytes, if any.
pub open spec fn chars_for_bytes(s: Seq<char>, b: int) -> Option<int> {
    if exists|k: int| 0 <= k <= s.len() && utf8_len(#[trigger] s.take(k)) == b {
        Some(choose|k: int| 0 <= k <= s.len() && utf8_len(#[trigger] s.take(k)) == b)
    } else {
        None
    }
}

/// A date text whose dash-free form can be cut at bytes 4, 6 and 8 when it is at least
/// eight bytes long (always so for ASCII text).
pub open spec fn date_cuttable(s: Seq<char>) -> bool {
    let t = undashed(s);
    utf8_len(t) >= 8 ==> chars_for_bytes(t, 4) is Some && chars_for_bytes(t, 6) is Some
        && chars_for_bytes(t, 8) is Some
}

/// A statement date-time shown as `YYYY-MM-DD` (dashes dropped, then the first eight bytes
/// re-dashed); a shorter text is shown dash-free as it is.
pub open spec fn report_date(s: Seq<char>) -> Seq<char> {
    let t = undashed(s);
    if utf8_len(t) >= 8 {
        let k4 = chars_for_bytes(t, 4)->0;
        let k6 = chars_for_bytes(t, 6)->0;
        let k8 = chars_for_bytes(t, 8)->0;
        t.take(k4) + "-"@ + t.subrange(k4, k6) + "-"@ + t.subrange(k6, k8)
    } else {
        t
    }
}

/// A statement date shown as `MM/DD`; a shorter text is shown dash-free as it is.
pub open spec fn short_date(s: Seq<char>) -> Seq<char> {
    let t = undashed(s);
    if utf8_len(t) >= 8 {
        let k4 = chars_for_bytes(t, 4)->0;
        let k6 = chars_for_bytes(t, 6)->0;
        let k8 = chars_for_bytes(t, 8)->0;
        t.subrange(k4, k6) + "/"@ + t.subrange(k6, k8)
    } else {
        t
    }
}

proof fn lemma_utf8_len_monotone(s: Seq<char>, a: int, b: int)
    requires
        0 <= a < b <= s.len(),
    ensures
        utf8_len(s.take(a)) < utf8_len(s.take(b)),
    decreases b - a,
{
    assert(s.take(b).drop_last() =~= s.take(b - 1));
    if a < b - 1 {
        lemma_utf8_len_monotone(s, a, b - 1);
    }
}

proof fn lemma_chars_for_bytes_unique(s: Seq<char>, b: int, k: int)
    requires
        0 <= k <= s.len(),
        utf8_len(s.take(k)) == b,
    ensures
        chars_for_bytes(s, b) == Some(k),
{
    let w = choose|j: int| 0 <= j <= s.len() && utf8_len(#[trigger] s.take(j)) == b;
    if w < k {
        lemma_utf8_len_monotone(s, w, k);
    } else if w > k {
        lemma_utf8_len_monotone(s, k, w);
    }
}

fn width_of(c: char) -> (r: usize)
    ensures
        r == utf8_width(c),
{
    let v = c as u32;
    if v < 0x80 {
        1
    } else if v < 0x800 {
        2
    } else if v < 0x10000 {
        3
    } else {
        4
    }
}

/// The dash-free text and, when it is at least eight bytes long, the character positions
/// of its bytes 4, 6 and 8.
fn date_cuts(s: &str) -> (r: (String, Option<(usize, usize, usize)>))
    requires
        date_cuttable(s@),
    ensures
        r.0@ == undashed(s@),
        match r.1 {
            Some((a, b, c)) => utf8_len(undashed(s@)) >= 8 && chars_for_bytes(undashed(s@), 4) == Some(a as int)
                && chars_for_bytes(undashed(s@), 6) == Some(b as int) && chars_for_bytes(undashed(s@), 8)
                == Some(c as int) && a <= b <= c <= r.0@.len(),
            None => utf8_len(undashed(s@)) < 8,
        },
{
    proof {
        reveal_strlit("-");
    }
    let n = s.unicode_len();
    let mut t = String::new();
    let mut i: usize = 0;
    let mut bytes: usize = 0;
    let mut k4: Option<usize> = None;
    let mut k6: Option<usize> = None;
    let mut k8: Option<usize> = None;
    proof {
        assert(s@.take(0) =~= Seq::<char>::empty());
        assert(t@.take(0) =~= Seq::<char>::empty());
    }
    while i < n
        invariant
            n == s@.len(),
            i <= n,
            t@ == undashed(s@.take(i as int)),
            bytes <= 11,
            bytes < 8 ==> bytes == utf8_len(t@),
            bytes >= 8 ==> utf8_len(t@) >= 8,
            t@.len() <= i,
            k4 matches Some(a) ==> a <= t@.len() && utf8_len(t@.take(a as int)) == 4,
            k4 is None ==> utf8_len(t@) < 4 || forall|j: int| 0 <= j <= t@.len() ==> utf8_len(#[trigger] t@.take(j)) != 4,
            k6 matches Some(a) ==> a <= t@.len() && utf8_len(t@.take(a as int)) == 6,
            k6 is None ==> utf8_len(t@) < 6 || forall|j: int| 0 <= j <= t@.len() ==> utf8_len(#[trigger] t@.take(j)) != 6,
            k8 matches Some(a) ==> a <= t@.len() && utf8_len(t@.take(a as int)) == 8,
            k8 is None ==> utf8_len(t@) < 8 || forall|j: int| 0 <= j <= t@.len() ==> utf8_len(#[trigger] t@.take(j)) != 8,
        decreases n - i,
    {
        let c = s.get_char(i);
        proof {
            assert(s@.take(i + 1).drop_last() =~= s@.take(i as int));
            assert(s@.take(i + 1).last() == c);
        }
        if c != '-' {
            let ghost t0 = t@;
            let one = s.substring_char(i, i + 1);
            proof {
                assert(one@ =~= seq![c]);
            }
            t.append(one);
            proof {
                assert(t@ =~= t0.push(c));
                assert(t@.drop_last() =~= t0);
                assert(t@.take(t@.len() as int) =~= t@);
                assert forall|j: int| 0 <= j <= t0.len() implies #[trigger] t@.take(j) == t0.take(j) by {
                    assert(t@.take(j) =~= t0.take(j));
                }
            }
            let len_t = t.as_str().unicode_len();
            let w = width_of(c);
            let before = bytes;
            if bytes < 8 {
                bytes = bytes + w;
            }
            proof {
                assert(utf8_len(t@) == utf8_len(t0) + w);
            }
            if before < 4 && bytes == 4 {
                k4 = Some(len_t);
            }
            if before < 6 && bytes == 6 {
                k6 = Some(len_t);
            }
            if before < 8 && bytes == 8 {
                k8 = Some(len_t);
            }
            proof {
                if k4 is None && utf8_len(t@) >= 4 {
                    assert forall|j: int| 0 <= j <= t@.len() implies utf8_len(#[trigger] t@.take(j)) != 4 by {
                        if j < t@.len() {
                            assert(t@.take(j) == t0.take(j));
                            if utf8_len(t0) >= 4 {
                            } else {
                                if j < t0.len() {
                                    lemma_utf8_len_monotone(t0, j, t0.len() as int);
                                    assert(t0.take(t0.len() as int) =~= t0);
                                } else {
                                    assert(t0.take(j) =~= t0);
                                }
                            }
                        }
                    }
                }
                if k6 is None && utf8_len(t@) >= 6 {
                    assert forall|j: int| 0 <= j <= t@.len() implies utf8_len(#[trigger] t@.take(j)) != 6 by {
                        if j < t@.len() {
                            assert(t@.take(j) == t0.take(j));
                            if utf8_len(t0) >= 6 {
                            } else {
                                if j < t0.len() {
                                    lemma_utf8_len_monotone(t0, j, t0.len() as int);
                                    assert(t0.take(t0.len() as int) =~= t0);
                                } else {
                                    assert(t0.take(j) =~= t0);
                                }
                            }
                        }
                    }
                }
                if k8 is None && utf8_len(t@) >= 8 {
                    assert forall|j: int| 0 <= j <= t@.len() implies utf8_len(#[trigger] t@.take(j)) != 8 by {
                        if j < t@.len() {
                            assert(t@.take(j) == t0.take(j));
                            if utf8_len(t0) >= 8 {
                            } else {
                                if j < t0.len() {
                                    lemma_utf8_len_monotone(t0, j, t0.len() as int);
                                    assert(t0.take(t0.len() as int) =~= t0);
                                } else {
                                    assert(t0.take(j) =~= t0);
                                }
                            }
                        }
                    }
                }
                if let Some(a) = k4 {
                    if a < t@.len() {
                        assert(t@.take(a as int) == t0.take(a as int));
                    }
                }
                if let Some(a) = k6 {
                    if a < t@.len() {
                        assert(t@.take(a as int) == t0.take(a as int));
                    }
                }
                if let Some(a) = k8 {
                    if a < t@.len() {
                        assert(t@.take(a as int) == t0.take(a as int));
                    }
                }
            }
        }
        i = i + 1;
    }
    proof {
        assert(s@.take(n as int) =~= s@);
    }
    if bytes >= 8 {
        proof {
            assert(date_cuttable(s@));
        }
        match (k4, k6, k8) {
            (Some(a), Some(b), Some(c)) => {
                proof {
                    lemma_chars_for_bytes_unique(t@, 4, a as int);
                    lemma_chars_for_bytes_unique(t@, 6, b as int);
                    lemma_chars_for_bytes_unique(t@, 8, c as int);
                    if b < a {
                        lemma_utf8_len_monotone(t@, b as int, a as int);
                    }
                    if c < b {
                        lemma_utf8_len_monotone(t@, c as int, b as int);
                    }
                }
                (t, Some((a, b, c)))
            },
            _ => {
                proof {
                    // the requirement rules this out
                    assert(chars_for_bytes(t@, 4) is Some && chars_for_bytes(t@, 6) is Some
                        && chars_for_bytes(t@, 8) is Some);
                }
                (t, None)
            },
        }
    } else {
        (t, None)
    }
}

/// A statement date-time as the report shows it.
pub fn fmt_date(s: &str) -> (r: String)
    requires
        date_cuttable(s@),
    ensures
        r@ == report_date(s@),
{
    let (t, cuts) = date_cuts(s);
    match cuts {
        Some((a, b, c)) => {
            proof {
                reveal_strlit("-");
            }
            let mut out = t.as_str().substring_char(0, a).to_string();
            out.append("-");
            out.append(t.as_str().substring_char(a, b));
            out.append("-");
            out.append(t.as_str().substring_char(b, c));
            proof {
                assert(out@ =~= report_date(s@));
            }
            out
        },
        None => t,
    }
}

/// A statement date as the charts label it.
pub fn date_short(s: &str) -> (r: String)
    requires
        date_cuttable(s@),
    ensures
        r@ == short_date(s@),
{
    let (t, cuts) = date_cuts(s);
    match cuts {
        Some((a, b, c)) => {
            proof {
                reveal_strlit("/");
            }
            let mut out = t.as_str().substring_char(a, b).to_string();
            out.append("/");
            out.append(t.as_str().substring_char(b, c));
            proof {
                assert(out@ =~= short_date(s@));
            }
            out
        },
        None => t,
    }
}


// ── trade rows ───────────────────────────────────────────────────────────────

/// `s` padded with spaces on the right to `w` characters (as `{:<w}` pads).
pub open spec fn pad_right(s: Seq<char>, w: int) -> Seq<char> {
    if s.len() >= w {
        s
    } else {
        s + Seq::new((w - s.len()) as nat, |i: int| ' ')
    }
}

/// `s` padded with spaces on the left to `w` characters (as `{:>w}` pads).
pub open spec fn pad_left(s: Seq<char>, w: int) -> Seq<char> {
    if s.len() >= w {
        s
    } else {
        Seq::new((w - s.len()) as nat, |i: int| ' ') + s
    }
}

fn push_spaces(out: &mut String, n: usize)
    ensures
        final(out)@ == old(out)@ + Seq::new(n as nat, |i: int| ' '),
{
    proof {
        reveal_strlit(" ");
    }
    let ghost start = out@;
    let mut k: usize = 0;
    while k < n
        invariant
            k <= n,
            out@ == start + Seq::new(k as nat, |i: int| ' '),
        decreases n - k,
    {
        let ghost prev = out@;
        out.append(" ");
        k = k + 1;
        proof {
            reveal_strlit(" ");
            assert(" "@ =~= seq![' ']);
            assert(out@ == prev + " "@);
            assert(out@ =~= start + Seq::new(k as nat, |i: int| ' '));
        }
    }
}

fn push_padded_right(out: &mut String, s: &str, w: usize)
    ensures
        final(out)@ == old(out)@ + pad_right(s@, w as int),
{
    let n = s.unicode_len();
    out.append(s);
    if n < w {
        push_spaces(out, w - n);
    }
}

/// `v` (fixed-point, four decimals) rounded half away from zero to `d` decimals and
/// written with exactly `d` decimals; negative amounts keep their `-` even when they round
/// to zero.
pub open spec fn fixed_text(v: int, d: nat) -> Seq<char> {
    let unit = if d == 0 {
        10000int
    } else if d == 1 {
        1000
    } else if d == 2 {
        100
    } else if d == 3 {
        10
    } else {
        1
    };
    let a = if v < 0 {
        -v
    } else {
        v
    };
    let q = (2 * a + unit) / (2 * unit);
    let scale = 10000int / unit;
    (if v < 0 {
        seq!['-']
    } else {
        Seq::empty()
    }) + decimal((q / scale) as nat) + (if d == 0 {
        Seq::empty()
    } else {
        seq!['.'] + crate::text::zero_padded((q % scale) as nat, d)
    })
}

fn push_fixed(out: &mut String, v: i128, d: u32)
    requires
        d <= 4,
        -0x1_0000_0000_0000_0000_0000_0000_0000 <= v <= 0x1_0000_0000_0000_0000_0000_0000_0000,
    ensures
        final(out)@ == old(out)@ + fixed_text(v as int, d as nat),
{
    proof {
        reveal_strlit("-");
        reveal_strlit(".");
    }
    let unit: u128 = if d == 0 {
        10000
    } else if d == 1 {
        1000
    } else if d == 2 {
        100
    } else if d == 3 {
        10
    } else {
        1
    };
    let a: u128 = if v < 0 {
        (0 - v) as u128
    } else {
        v as u128
    };
    let q = (2 * a + unit) / (2 * unit);
    let scale: u128 = 10000 / unit;
    let ghost start = out@;
    if v < 0 {
        out.append("-");
    }
    let whole = q / scale;
    crate::text::push_decimal_wide(out, whole);
    if d > 0 {
        out.append(".");
        push_zero_padded(out, (q % scale) as u64, d);
    }
    proof {
        assert(out@ =~= start + fixed_text(v as int, d as nat));
    }
}

/// Append `n` zero-padded to `w` digits.
fn push_zero_padded(out: &mut String, n: u64, w: u32)
    ensures
        final(out)@ == old(out)@ + crate::text::zero_padded(n as nat, w as nat),
{
    let digits = crate::text::u64_to_string(n);
    let len = digits.as_str().unicode_len();
    let ghost start = out@;
    proof {
        reveal_strlit("0");
    }
    if (len as u64) < (w as u64) {
        let mut k: usize = 0;
        let pad = (w as usize) - len;
        while k < pad
            invariant
                k <= pad,
                out@ == start + Seq::new(k as nat, |i: int| '0'),
            decreases pad - k,
        {
            let ghost prev = out@;
            out.append("0");
            k = k + 1;
            proof {
                reveal_strlit("0");
                assert("0"@ =~= seq!['0']);
                assert(out@ == prev + "0"@);
                assert(out@ =~= start + Seq::new(k as nat, |i: int| '0'));
            }
        }
    }
    out.append(digits.as_str());
    proof {
        assert(out@ =~= start + crate::text::zero_padded(n as nat, w as nat));
    }
}

/// One line of the report's trade list: exit date, symbol, side, quantity, entry and exit
/// prices, profit, and return (`{:<14}{:<12}{:<8}{:<9.0}{:<11.2}{:<11.2}{:<10.2}{:>6.1}%`).
pub open spec fn trade_line(t: TripView) -> Seq<char> {
    pad_right(report_date(t.exit_time), 14) + pad_right(t.symbol, 12) + pad_right(t.side, 8)
        + pad_right(fixed_text(t.qty, 0), 9) + pad_right(fixed_text(t.entry_price, 2), 11)
        + pad_right(fixed_text(t.exit_price, 2), 11) + pad_right(fixed_text(t.pnl, 2), 10) + pad_left(
        fixed_text(t.return_pct, 1),
        6,
    ) + "%"@
}

/// A trip the report can print: a readable exit date and amounts of bounded size.
pub open spec fn printable(t: TripView) -> bool {
    &&& date_cuttable(t.exit_time)
    &&& -0x1_0000_0000_0000_0000_0000_0000_0000 <= t.pnl <= 0x1_0000_0000_0000_0000_0000_0000_0000
    &&& -0x1_0000_0000_0000_0000_0000_0000_0000 <= t.return_pct <= 0x1_0000_0000_0000_0000_0000_0000_0000
}

/// The report line of a round trip.
pub fn trade_row(t: &RoundTrip) -> (r: String)
    requires
        printable(t@),
    ensures
        r@ == trade_line(t@),
{
    proof {
        reveal_strlit("%");
    }
    let mut out = String::new();
    let d = fmt_date(t.exit_time.as_str());
    push_padded_right(&mut out, d.as_str(), 14);
    push_padded_right(&mut out, t.symbol.as_str(), 12);
    push_padded_right(&mut out, t.side.as_str(), 8);
    let mut q = String::new();
    push_fixed(&mut q, t.qty as i128, 0);
    push_padded_right(&mut out, q.as_str(), 9);
    let mut e = String::new();
    push_fixed(&mut e, t.entry_price as i128, 2);
    push_padded_right(&mut out, e.as_str(), 11);
    let mut x = String::new();
    push_fixed(&mut x, t.exit_price as i128, 2);
    push_padded_right(&mut out, x.as_str(), 11);
    let mut p = String::new();
    push_fixed(&mut p, t.pnl, 2);
    push_padded_right(&mut out, p.as_str(), 10);
    let mut r = String::new();
    push_fixed(&mut r, t.return_pct, 1);
    let rn = r.as_str().unicode_len();
    if rn < 6 {
        push_spaces(&mut out, 6 - rn);
    }
    out.append(r.as_str());
    out.append("%");
    proof {
        assert(out@ =~= trade_line(t@));
    }
    out
}


// ── pages ────────────────────────────────────────────────────────────────────

/// Which sections the operator asked the report to include.
#[derive(Debug, Clone, Copy)]
pub struct ReportSections {
    pub equity: bool,
    pub drawdown: bool,
    pub histogram: bool,
    pub pies: bool,
    pub symbol_bar: bool,
    pub monthly: bool,
    pub trade_list: bool,
}

/// The pages of a report after the cover (metrics) page.
#[derive(Debug, Clone, Copy)]
pub struct ReportPlan {
    /// Equity curve and/or drawdown.
    pub trend_page: bool,
    /// P&L histogram and/or pies.
    pub distribution_page: bool,
    /// Per-symbol bars and/or monthly heat map.
    pub breakdown_page: bool,
    /// Rows of the trade list (0: no trade page).
    pub trade_rows: usize,
}

/// Trade rows that fit one page: rows start 267 mm up and step down 3.8 mm while they
/// stay at or above 20 mm.
pub const TRADE_ROWS_PER_PAGE: usize = 66;

/// Row `k` of the trade list stays on the page: `267 - 3.8k >= 20` mm (in tenths of a
/// millimetre, `2670 - 38k >= 200`).
pub open spec fn row_fits(k: int) -> bool {
    2670 - 38 * k >= 200
}

/// `TRADE_ROWS_PER_PAGE` is exactly the number of rows that stay on the page.
pub proof fn lemma_rows_per_page()
    ensures
        forall|k: int| 0 <= k ==> (#[trigger] row_fits(k) <==> k < TRADE_ROWS_PER_PAGE),
{
}

pub open spec fn plan_spec(s: ReportSections, trips: int) -> ReportPlan {
    ReportPlan {
        trend_page: s.equity || s.drawdown,
        distribution_page: s.histogram || s.pies,
        breakdown_page: s.symbol_bar || s.monthly,
        trade_rows: if s.trade_list && trips > 0 {
            if trips < TRADE_ROWS_PER_PAGE {
                trips as usize
            } else {
                TRADE_ROWS_PER_PAGE
            }
        } else {
            0
        },
    }
}

/// The pages of the report for the chosen sections and the number of round trips.
pub fn report_plan(s: &ReportSections, trips: usize) -> (r: ReportPlan)
    ensures
        r == plan_spec(*s, trips as int),
{
    ReportPlan {
        trend_page: s.equity || s.drawdown,
        distribution_page: s.histogram || s.pies,
        breakdown_page: s.symbol_bar || s.monthly,
        trade_rows: if s.trade_list && trips > 0 {
            if trips < TRADE_ROWS_PER_PAGE {
                trips
            } else {
                TRADE_ROWS_PER_PAGE
            }
        } else {
            0
        },
    }
}

// ── monthly heat map ─────────────────────────────────────────────────────────

/// Some of the first `n` months falls in year `y`.
pub open spec fn year_seen(months: Seq<(i32, u32)>, n: int, y: int) -> bool {
    exists|m: int| 0 <= m < n && months[m].0 == y
}

/// `y` is one of `ys`.
pub open spec fn year_listed(ys: Seq<i32>, y: int) -> bool {
    exists|a: int| 0 <= a < ys.len() && ys[a] == y
}

/// The heat map's rows: each year of the months once, in ascending order.
pub fn heatmap_years(months: &[(i32, u32)]) -> (r: Vec<i32>)
    ensures
        forall|i: int, j: int| 0 <= i < j < r@.len() ==> r@[i] < r@[j],
        forall|y: int| #[trigger] year_seen(months@, months@.len() as int, y) <==> year_listed(r@, y),
{
    let mut ys: Vec<i32> = Vec::new();
    let mut i: usize = 0;
    while i < months.len()
        invariant
            i <= months@.len(),
            forall|a: int, b: int| 0 <= a < b < ys@.len() ==> ys@[a] < ys@[b],
            forall|y: int| #[trigger] year_seen(months@, i as int, y) <==> year_listed(ys@, y),
        decreases months.len() - i,
    {
        let y = months[i].0;
        let n = ys.len();
        let mut k: usize = 0;
        while k < n && ys[k] < y
            invariant
                n == ys@.len(),
                k <= n,
                forall|a: int| 0 <= a < k ==> ys@[a] < y,
            decreases n - k,
        {
            k = k + 1;
        }
        let ghost y0 = ys@;
        if !(k < n && ys[k] == y) {
            ys.insert(k, y);
            proof {
                assert(ys@ == y0.insert(k as int, y));
                assert forall|a: int, b: int| 0 <= a < b < ys@.len() implies ys@[a] < ys@[b] by {
                    if b < k {
                        assert(ys@[a] == y0[a] && ys@[b] == y0[b]);
                    } else if b == k {
                        assert(ys@[a] == y0[a]);
                    } else if a < k {
                        assert(ys@[a] == y0[a] && ys@[b] == y0[b - 1]);
                    } else if a == k {
                        assert(ys@[b] == y0[b - 1]);
                        assert(y0[k as int] > y);
                        if b - 1 > k {
                            assert(y0[k as int] < y0[b - 1]);
                        }
                    } else {
                        assert(ys@[a] == y0[a - 1] && ys@[b] == y0[b - 1]);
                    }
                }
            }
        }
        proof {
            assert forall|yy: int| #[trigger] year_seen(months@, i + 1, yy) <==> year_listed(ys@, yy) by {
                if year_seen(months@, i + 1, yy) {
                    if yy == y {
                        assert(ys@[k as int] == yy);
                    } else {
                        let m = choose|m: int| 0 <= m < i + 1 && months@[m].0 == yy;
                        assert(m < i);
                        assert(year_seen(months@, i as int, yy));
                        let a = choose|a: int| 0 <= a < y0.len() && y0[a] == yy;
                        if ys@ == y0 {
                            assert(ys@[a] == yy);
                        } else if a < k {
                            assert(ys@[a] == yy);
                        } else {
                            assert(ys@[a + 1] == yy);
                        }
                    }
                }
                if year_listed(ys@, yy) {
                    let a = choose|a: int| 0 <= a < ys@.len() && ys@[a] == yy;
                    if yy == y {
                        assert(months@[i as int].0 == yy);
                    } else if ys@ == y0 {
                        assert(year_listed(y0, yy));
                        assert(year_seen(months@, i as int, yy));
                        let m = choose|m: int| 0 <= m < i && months@[m].0 == yy;
                    } else {
                        let aa = if a < k { a } else { a - 1 };
                        assert(a != k);
                        assert(y0[aa] == yy);
                        assert(year_listed(y0, yy));
                        assert(year_seen(months@, i as int, yy));
                        let m = choose|m: int| 0 <= m < i && months@[m].0 == yy;
                    }
                }
            }
        }
        i = i + 1;
    }
    ys
}

/// Rust's `/` on integers rounds toward zero.
pub open spec fn div_trunc(a: int, b: int) -> int {
    if a >= 0 {
        a / b
    } else {
        -((-a) / b)
    }
}

/// Width and height of a heat-map cell for a `w`×`h` image with `years` rows: twelve
/// columns across what the 60-pixel row labels and a 10-pixel margin leave (at least 10
/// wide), rows in what the 40-pixel header and a 20-pixel margin leave (between 12 and 28
/// high); integer division rounds toward zero.
pub fn heatmap_cell_size(w: u32, h: u32, years: u32) -> (r: (i32, i32))
    requires
        w <= i32::MAX,
        h <= i32::MAX,
        years >= 1,
        years <= i32::MAX,
    ensures
        r.0 == (if div_trunc(w - 70, 12) < 10 {
            10
        } else {
            div_trunc(w - 70, 12)
        }),
        r.1 == (if div_trunc(h - 60, years as int) < 12 {
            12
        } else if div_trunc(h - 60, years as int) > 28 {
            28
        } else {
            div_trunc(h - 60, years as int)
        }),
{
    let wl = w as i64 - 70;
    let cw0: i64 = if wl >= 0 {
        wl / 12
    } else {
        -((-wl) / 12)
    };
    let hl = h as i64 - 60;
    let ch0: i64 = if hl >= 0 {
        hl / (years as i64)
    } else {
        -((-hl) / (years as i64))
    };
    let cw = if cw0 < 10 {
        10
    } else {
        cw0
    };
    let ch = if ch0 < 12 {
        12
    } else if ch0 > 28 {
        28
    } else {
        ch0
    };
    assert(cw <= i32::MAX) by (nonlinear_arith)
        requires
            cw == (if cw0 < 10 { 10 } else { cw0 }),
            wl >= 0 ==> cw0 == wl / 12,
            wl < 0 ==> cw0 == -((-wl) / 12),
            wl <= i32::MAX,
    ;
    (cw as i32, ch as i32)
}

} // verus!
