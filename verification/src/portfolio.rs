//! The read-only portfolio view and chart window of the client: which account is shown,
//! how streamed portfolio rows update the book, which slice of bars a chart shows, and
//! which resting orders mark a position's stop loss and take profit.

use vstd::prelude::*;

use crate::book::{book_put, book_remove, find_key, keys_sorted, Keyed};
use crate::model::{OrderKind, Side, WorkingOrder};
use crate::text::{str_eq, trim, trim_str};

verus! {

// ── the account shown ────────────────────────────────────────────────────────

/// The account to show: the configured one (trimmed) when the login manages it, else the
/// login's first account, else none (empty).
pub open spec fn view_account_spec(want: Seq<char>, accounts: Seq<Seq<char>>) -> Seq<char> {
    let w = trim(want);
    if w.len() > 0 && accounts.contains(w) {
        w
    } else if accounts.len() > 0 {
        accounts[0]
    } else {
        Seq::empty()
    }
}

pub open spec fn account_names(v: Seq<String>) -> Seq<Seq<char>> {
    v.map_values(|s: String| s@)
}

/// The account the portfolio view shows.
pub fn view_account(want: &str, accounts: &[String]) -> (r: String)
    ensures
        r@ == view_account_spec(want@, account_names(accounts@)),
{
    let w = trim_str(want);
    if w.unicode_len() > 0 {
        let mut i: usize = 0;
        while i < accounts.len()
            invariant
                i <= accounts@.len(),
                w@ == trim(want@),
                w@.len() > 0,
                forall|j: int| 0 <= j < i ==> accounts@[j]@ != w@,
            decreases accounts.len() - i,
        {
            if str_eq(accounts[i].as_str(), w) {
                proof {
                    assert(account_names(accounts@)[i as int] == w@);
                    assert(account_names(accounts@).contains(w@));
                }
                return w.to_string();
            }
            i = i + 1;
        }
        proof {
            assert(!account_names(accounts@).contains(w@)) by {
                if account_names(accounts@).contains(w@) {
                    let j = choose|j: int| 0 <= j < account_names(accounts@).len() && account_names(accounts@)[j] == w@;
                    assert(accounts@[j]@ == w@);
                }
            }
        }
    }
    if accounts.len() > 0 {
        accounts[0].clone()
    } else {
        String::new()
    }
}

// ── the portfolio book ───────────────────────────────────────────────────────

/// One row of the portfolio view (money fixed-point).
#[derive(Debug, Clone)]
pub struct PortfolioRow {
    pub symbol: String,
    pub position: i64,
    pub market_price: i64,
    pub market_value: i64,
    pub avg_cost: i64,
    pub unrealized_pnl: i64,
}

impl Keyed for PortfolioRow {
    open spec fn key_view(&self) -> Seq<char> {
        self.symbol@
    }

    fn key_str(&self) -> (r: &str) {
        self.symbol.as_str()
    }
}

/// Apply one streamed portfolio value: a flat row removes the symbol, any other puts (or
/// replaces) its row; the book stays in symbol order, which is the order it is shown in.
pub fn apply_portfolio_update(book: &mut Vec<PortfolioRow>, row: PortfolioRow)
    requires
        keys_sorted(old(book)@),
    ensures
        keys_sorted(final(book)@),
        forall|s: Seq<char>| s != row.symbol@ ==> #[trigger] find_key(final(book)@, s) == find_key(old(book)@, s),
        row.position == 0 ==> find_key(final(book)@, row.symbol@) is None,
        row.position != 0 ==> find_key(final(book)@, row.symbol@) == Some(row),
{
    if row.position == 0 {
        book_remove(book, row.symbol.as_str());
    } else {
        book_put(book, row);
    }
}

// ── the chart window ─────────────────────────────────────────────────────────

/// Bars shown on a fresh load.
pub const DEFAULT_VISIBLE: usize = 90;
/// Tightest zoom: the fewest bars shown.
pub const MIN_VISIBLE: usize = 8;

pub open spec fn min_n(a: int, b: int) -> int {
    if a < b {
        a
    } else {
        b
    }
}

pub open spec fn max_n(a: int, b: int) -> int {
    if a > b {
        a
    } else {
        b
    }
}

/// The window of a fresh load of `len` bars: the most recent `DEFAULT_VISIBLE` (at least
/// `MIN_VISIBLE` when there are that many), as `(count, start)`.
pub open spec fn initial_window_spec(len: int) -> (int, int) {
    let count = max_n(min_n(len, DEFAULT_VISIBLE as int), min_n(MIN_VISIBLE as int, len));
    (count, len - count)
}

/// The window a fresh load shows.
pub fn initial_window(len: usize) -> (r: (usize, usize))
    ensures
        r.0 == initial_window_spec(len as int).0,
        r.1 == initial_window_spec(len as int).1,
{
    let a = if len < DEFAULT_VISIBLE {
        len
    } else {
        DEFAULT_VISIBLE
    };
    let b = if MIN_VISIBLE < len {
        MIN_VISIBLE
    } else {
        len
    };
    let count = if a > b {
        a
    } else {
        b
    };
    (count, len - count)
}

/// A requested window clamped to `len` bars: the count within
/// `[max(min(MIN_VISIBLE, len), 1), len]`, then the start no later than `len - count`.
pub open spec fn clamp_window_spec(len: int, count: int, start: int) -> (int, int) {
    let lo = max_n(min_n(MIN_VISIBLE as int, len), 1);
    let c = if count < lo {
        lo
    } else if count > len {
        len
    } else {
        count
    };
    (c, min_n(start, len - c))
}

/// Clamp a pan/zoom window to the bars there are (`len >= 1`).
pub fn clamp_window(len: usize, count: usize, start: usize) -> (r: (usize, usize))
    requires
        len >= 1,
    ensures
        r.0 == clamp_window_spec(len as int, count as int, start as int).0,
        r.1 == clamp_window_spec(len as int, count as int, start as int).1,
{
    let m = if MIN_VISIBLE < len {
        MIN_VISIBLE
    } else {
        len
    };
    let lo = if m > 1 {
        m
    } else {
        1
    };
    let c = if count < lo {
        lo
    } else if count > len {
        len
    } else {
        count
    };
    let s = if start < len - c {
        start
    } else {
        len - c
    };
    (c, s)
}

/// A clamped window is never empty and never runs past the last bar; a fresh window ends
/// at the last bar.
pub proof fn law_window_in_range(len: int, count: int, start: int)
    requires
        len >= 1,
        start >= 0,
    ensures
        1 <= clamp_window_spec(len, count, start).0 <= len,
        0 <= clamp_window_spec(len, count, start).1,
        clamp_window_spec(len, count, start).1 + clamp_window_spec(len, count, start).0 <= len,
        initial_window_spec(len).0 + initial_window_spec(len).1 == len,
        1 <= initial_window_spec(len).0 <= len,
{
}

// ── stop loss and take profit ────────────────────────────────────────────────

/// Protective levels of a position from the resting orders of its symbol: an order on the
/// closing side that is a stop (or stop-limit) marks the stop loss at its stop price
/// (its limit when no stop price is set), one that is a limit marks the take profit; the
/// last such order of each kind wins, and non-positive prices mark nothing.
pub open spec fn levels_spec(is_long: bool, symbol: Seq<char>, orders: Seq<WorkingOrder>) -> (Option<int>, Option<int>)
    decreases orders.len(),
{
    if orders.len() == 0 {
        (None, None)
    } else {
        let (sl, tp) = levels_spec(is_long, symbol, orders.drop_last());
        let w = orders.last();
        let closes = (is_long && w.side == Side::Sell) || (!is_long && w.side == Side::Buy);
        if w.symbol@ != symbol || !closes {
            (sl, tp)
        } else if w.kind == OrderKind::Stop || w.kind == OrderKind::StopLimit {
            let price = if w.aux_price > 0 {
                w.aux_price as int
            } else {
                w.limit_price as int
            };
            if price > 0 {
                (Some(price), tp)
            } else {
                (sl, tp)
            }
        } else if w.kind == OrderKind::Limit {
            if w.limit_price > 0 {
                (sl, Some(w.limit_price as int))
            } else {
                (sl, tp)
            }
        } else {
            (sl, tp)
        }
    }
}

pub open spec fn opt_int(o: Option<i64>) -> Option<int> {
    match o {
        Some(v) => Some(v as int),
        None => None,
    }
}

/// The stop-loss and take-profit levels of a position (`is_long` its direction).
pub fn protective_levels(is_long: bool, symbol: &str, orders: &[WorkingOrder]) -> (r: (Option<i64>, Option<i64>))
    ensures
        opt_int(r.0) == levels_spec(is_long, symbol@, orders@).0,
        opt_int(r.1) == levels_spec(is_long, symbol@, orders@).1,
{
    let mut sl: Option<i64> = None;
    let mut tp: Option<i64> = None;
    let mut i: usize = 0;
    proof {
        assert(orders@.take(0) =~= Seq::<WorkingOrder>::empty());
    }
    while i < orders.len()
        invariant
            i <= orders@.len(),
            opt_int(sl) == levels_spec(is_long, symbol@, orders@.take(i as int)).0,
            opt_int(tp) == levels_spec(is_long, symbol@, orders@.take(i as int)).1,
        decreases orders.len() - i,
    {
        proof {
            assert(orders@.take(i + 1).drop_last() =~= orders@.take(i as int));
            assert(orders@.take(i + 1).last() == orders@[i as int]);
        }
        let w = &orders[i];
        let closes = (is_long && w.side == Side::Sell) || (!is_long && w.side == Side::Buy);
        if str_eq(w.symbol.as_str(), symbol) && closes {
            if w.kind == OrderKind::Stop || w.kind == OrderKind::StopLimit {
                let price = if w.aux_price > 0 {
                    w.aux_price
                } else {
                    w.limit_price
                };
                if price > 0 {
                    sl = Some(price);
                }
            } else if w.kind == OrderKind::Limit {
                if w.limit_price > 0 {
                    tp = Some(w.limit_price);
                }
            }
        }
        i = i + 1;
    }
    proof {
        assert(orders@.take(i as int) =~= orders@);
    }
    (sl, tp)
}

// ── chart timeframes ─────────────────────────────────────────────────────────

/// Bar sizes the chart requests.
#[derive(Debug, Clone, Copy, PartialEq, Eq, Structural)]
pub enum BarKind {
    Min1,
    Min5,
    Min15,
    Min30,
    Hour1,
    Hour4,
    Day,
    Week,
    Month,
}

/// Units of the history span the chart requests.
#[derive(Debug, Clone, Copy, PartialEq, Eq, Structural)]
pub enum SpanUnit {
    Days,
    Months,
    Years,
}

/// The chart timeframe selected by index: bar size, history span and label (`M1`: 1-min
/// bars over a day, `M5` over 5 days, `M15` over 10 days, `M30` over a month, `H1` over
/// 2 months, `H4` over 6 months, `D1` over a year, `W1` over 5 years, `MN` over 10 years;
/// any other index is `D1`).
pub open spec fn timeframe_spec(tf: u8) -> (BarKind, SpanUnit, u32, Seq<char>) {
    if tf == 0 {
        (BarKind::Min1, SpanUnit::Days, 1, "M1"@)
    } else if tf == 1 {
        (BarKind::Min5, SpanUnit::Days, 5, "M5"@)
    } else if tf == 2 {
        (BarKind::Min15, SpanUnit::Days, 10, "M15"@)
    } else if tf == 3 {
        (BarKind::Min30, SpanUnit::Months, 1, "M30"@)
    } else if tf == 4 {
        (BarKind::Hour1, SpanUnit::Months, 2, "H1"@)
    } else if tf == 5 {
        (BarKind::Hour4, SpanUnit::Months, 6, "H4"@)
    } else if tf == 7 {
        (BarKind::Week, SpanUnit::Years, 5, "W1"@)
    } else if tf == 8 {
        (BarKind::Month, SpanUnit::Years, 10, "MN"@)
    } else {
        (BarKind::Day, SpanUnit::Years, 1, "D1"@)
    }
}

/// The chart timeframe of an index.
pub fn timeframe(tf: u8) -> (r: (BarKind, SpanUnit, u32, &'static str))
    ensures
        (r.0, r.1, r.2, r.3@) == timeframe_spec(tf),
{
    proof {
        reveal_strlit("M1");
        reveal_strlit("M5");
        reveal_strlit("M15");
        reveal_strlit("M30");
        reveal_strlit("H1");
        reveal_strlit("H4");
        reveal_strlit("D1");
        reveal_strlit("W1");
        reveal_strlit("MN");
    }
    match tf {
        0 => (BarKind::Min1, SpanUnit::Days, 1, "M1"),
        1 => (BarKind::Min5, SpanUnit::Days, 5, "M5"),
        2 => (BarKind::Min15, SpanUnit::Days, 10, "M15"),
        3 => (BarKind::Min30, SpanUnit::Months, 1, "M30"),
        4 => (BarKind::Hour1, SpanUnit::Months, 2, "H1"),
        5 => (BarKind::Hour4, SpanUnit::Months, 6, "H4"),
        7 => (BarKind::Week, SpanUnit::Years, 5, "W1"),
        8 => (BarKind::Month, SpanUnit::Years, 10, "MN"),
        _ => (BarKind::Day, SpanUnit::Years, 1, "D1"),
    }
}

} // verus!
