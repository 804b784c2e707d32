//! The decisions of the client trading engine's session.
//!
//! The session itself (connecting, reading the account, fetching the master snapshot,
//! placing orders, sleeping) is I/O; every choice it makes between those steps is here:
//! which account to operate on, when the drawdown guard trips, which IBKR notices are
//! noise, which intents may be submitted, how margin is budgeted across opening orders,
//! and what CLOSE ALL sends.

use vstd::prelude::*;

use crate::model::{Position, Side, MAX_QTY, PRICE_SCALE};
use crate::reconcile::{IntentReason, TradeIntent};
use crate::text::{str_eq, trim, trim_str};

verus! {

// ── account selection ────────────────────────────────────────────────────────

/// `items` joined with `sep` between them.
pub open spec fn joined(items: Seq<Seq<char>>, sep: Seq<char>) -> Seq<char>
    decreases items.len(),
{
    if items.len() == 0 {
        Seq::empty()
    } else if items.len() == 1 {
        items[0]
    } else {
        joined(items.drop_last(), sep) + sep + items.last()
    }
}

pub open spec fn names(v: Seq<String>) -> Seq<Seq<char>> {
    v.map_values(|s: String| s@)
}

/// Join strings with a separator.
pub fn join_strings(items: &[String], sep: &str) -> (r: String)
    ensures
        r@ == joined(names(items@), sep@),
{
    let mut out = String::new();
    let mut i: usize = 0;
    proof {
        assert(names(items@).take(0) =~= Seq::<Seq<char>>::empty());
    }
    while i < items.len()
        invariant
            i <= items@.len(),
            out@ == joined(names(items@).take(i as int), sep@),
        decreases items.len() - i,
    {
        let ghost pre = names(items@).take(i as int);
        if i > 0 {
            out.append(sep);
        }
        out.append(items[i].as_str());
        proof {
            let next = names(items@).take(i + 1);
            assert(next.drop_last() =~= pre);
            assert(next.last() == items@[i as int]@);
            if i == 0 {
                assert(next.len() == 1);
                assert(out@ =~= next[0]);
            } else {
                assert(out@ =~= joined(pre, sep@) + sep@ + items@[i as int]@);
            }
        }
        i = i + 1;
    }
    proof {
        assert(names(items@).take(i as int) =~= names(items@));
    }
    out
}

/// The account to operate on, or why the session must stop. A configured account (trimmed)
/// must be one the login manages; with none configured, the login must manage exactly
/// one — the engine never acts across accounts.
pub open spec fn account_choice(configured: Seq<char>, accounts: Seq<Seq<char>>) -> Result<Seq<char>, Seq<char>> {
    let c = trim(configured);
    if c.len() > 0 {
        if accounts.contains(c) {
            Ok(c)
        } else {
            Err("Account '"@ + c + "' not on this login (available: "@ + (if accounts.len() == 0 {
                "none"@
            } else {
                joined(accounts, ", "@)
            }) + "). Stopping."@)
        }
    } else if accounts.len() == 1 {
        Ok(accounts[0])
    } else if accounts.len() == 0 {
        Err("No account available on this login. Stopping."@)
    } else {
        Err("This login manages multiple accounts ("@ + joined(accounts, ", "@)
            + "). Set the Account field to choose one — refusing to trade across accounts."@)
    }
}

pub open spec fn result_text(r: Result<String, String>) -> Result<Seq<char>, Seq<char>> {
    match r {
        Ok(s) => Ok(s@),
        Err(e) => Err(e@),
    }
}

/// Resolve EXACTLY ONE account to operate on, or the message the session stops with.
pub fn resolve_account(configured: &str, accounts: &[String]) -> (r: Result<String, String>)
    ensures
        result_text(r) == account_choice(configured@, names(accounts@)),
{
    proof {
        reveal_strlit("Account '");
        reveal_strlit("' not on this login (available: ");
        reveal_strlit("none");
        reveal_strlit(", ");
        reveal_strlit("). Stopping.");
        reveal_strlit("No account available on this login. Stopping.");
        reveal_strlit("This login manages multiple accounts (");
        reveal_strlit("). Set the Account field to choose one — refusing to trade across accounts.");
    }
    let c = trim_str(configured);
    if c.unicode_len() > 0 {
        let mut i: usize = 0;
        while i < accounts.len()
            invariant
                i <= accounts@.len(),
                c@ == trim(configured@),
                c@.len() > 0,
                forall|j: int| 0 <= j < i ==> accounts@[j]@ != c@,
            decreases accounts.len() - i,
        {
            if str_eq(accounts[i].as_str(), c) {
                proof {
                    assert(names(accounts@)[i as int] == c@);
                    assert(names(accounts@).contains(c@));
                }
                return Ok(c.to_string());
            }
            i = i + 1;
        }
        proof {
            assert(!names(accounts@).contains(c@)) by {
                if names(accounts@).contains(c@) {
                    let j = choose|j: int| 0 <= j < names(accounts@).len() && names(accounts@)[j] == c@;
                    assert(accounts@[j]@ == c@);
                }
            }
        }
        let avail = if accounts.len() == 0 {
            "none".to_string()
        } else {
            join_strings(accounts, ", ")
        };
        let mut m = "Account '".to_string();
        m.append(c);
        m.append("' not on this login (available: ");
        m.append(avail.as_str());
        m.append("). Stopping.");
        Err(m)
    } else if accounts.len() == 1 {
        Ok(accounts[0].clone())
    } else if accounts.len() == 0 {
        Err("No account available on this login. Stopping.".to_string())
    } else {
        let mut m = "This login manages multiple accounts (".to_string();
        let all = join_strings(accounts, ", ");
        m.append(all.as_str());
        m.append("). Set the Account field to choose one — refusing to trade across accounts.");
        Err(m)
    }
}

/// The engine only ever operates on an account the login manages.
pub proof fn law_account_is_managed(configured: Seq<char>, accounts: Seq<Seq<char>>)
    ensures
        account_choice(configured, accounts) matches Ok(a) ==> accounts.contains(a),
{
    if account_choice(configured, accounts) is Ok && trim(configured).len() == 0 {
        assert(accounts.contains(accounts[0]));
    }
}

// ── IBKR notices and order outcomes ─────────────────────────────────────────

/// IBKR system notices that are routine status/connectivity chatter (and cancel
/// confirmations), suppressed from the order feed to avoid noise. 2161 = limit-order
/// price-capped per IBKR's disruptive-order control (informational; the order still
/// rests and works).
pub open spec fn notice_noise(code: i32) -> bool {
    code == 202 || code == 2100 || code == 2103 || code == 2104 || code == 2105 || code == 2106
        || code == 2107 || code == 2108 || code == 2119 || code == 2150 || code == 2158
        || code == 2161
}

/// Whether an IBKR notice code is routine noise.
pub fn is_notice_noise(code: i32) -> (r: bool)
    ensures
        r == notice_noise(code),
{
    match code {
        202 | 2100 | 2103 | 2104 | 2105 | 2106 | 2107 | 2108 | 2119 | 2150 | 2158 | 2161 => true,
        _ => false,
    }
}

pub open spec fn closing_reason(r: IntentReason) -> bool {
    r == IntentReason::CloseOrphan || r == IntentReason::ReduceToTarget || r == IntentReason::FlattenLeg
}

pub open spec fn opening_reason(r: IntentReason) -> bool {
    r == IntentReason::OpenMissing || r == IntentReason::IncreaseToTarget || r == IntentReason::OpenLeg
}

/// Whether an intent reduces or closes exposure.
pub fn is_closing(reason: IntentReason) -> (r: bool)
    ensures
        r == closing_reason(reason),
{
    match reason {
        IntentReason::CloseOrphan | IntentReason::ReduceToTarget | IntentReason::FlattenLeg => true,
        _ => false,
    }
}

/// Whether an intent opens or adds exposure.
pub fn is_opening(reason: IntentReason) -> (r: bool)
    ensures
        r == opening_reason(reason),
{
    match reason {
        IntentReason::OpenMissing | IntentReason::IncreaseToTarget | IntentReason::OpenLeg => true,
        _ => false,
    }
}

/// Every intent either opens or closes exposure, never both: margin gating applies to
/// exactly the opening ones, and each placed order is counted once, as placed or closed.
pub proof fn law_reasons_partition(r: IntentReason)
    ensures
        opening_reason(r) != closing_reason(r),
{
}

/// The log level of an execution: sells (`SLD`) are logged as sells, everything else as
/// buys.
pub fn fill_is_sell(side: &str) -> (r: bool)
    ensures
        r == (side@ == "SLD"@),
{
    str_eq(side, "SLD")
}

/// A throttled message is due: it was never shown, or more than `window_ms` has passed
/// since it last was.
pub open spec fn due(last_ms: Option<u64>, now_ms: u64, window_ms: u64) -> bool {
    match last_ms {
        None => true,
        Some(t) => now_ms > t && now_ms - t > window_ms,
    }
}

/// Whether a throttled message is due.
pub fn is_due(last_ms: Option<u64>, now_ms: u64, window_ms: u64) -> (r: bool)
    ensures
        r == due(last_ms, now_ms, window_ms),
{
    match last_ms {
        None => true,
        Some(t) => now_ms > t && now_ms - t > window_ms,
    }
}

// ── drawdown guard ───────────────────────────────────────────────────────────

/// Consecutive cycles a drawdown breach must last (each on a valid balance) before the
/// guard trips, so one glitchy or partial balance read cannot halt trading.
pub const DRAWDOWN_CONFIRM_CYCLES: u32 = 3;

/// Max-drawdown guard, measured from the running PEAK equity (high-water mark), not the
/// session-start balance, so a profitable run doesn't loosen the guard.
#[derive(Debug, Clone, Copy)]
pub struct DrawdownGuard {
    /// Highest balance seen (fixed-point).
    pub peak_balance: i64,
    /// Consecutive valid readings so far that breach the limit.
    pub breaches: u32,
    /// The guard has tripped; trading stays halted until it is reset.
    pub hit: bool,
}

/// The drawdown `(peak - balance) / peak` reaches `max_pct` percent (`max_pct`
/// fixed-point, `PRICE_SCALE` per 1%).
pub open spec fn drawdown_reached(peak: int, balance: int, max_pct: int) -> bool {
    (peak - balance) * 100 * PRICE_SCALE >= max_pct * peak
}

/// The guard after observing `balance` with limit `max_pct`: a valid (positive) balance
/// raises the peak, extends or ends the run of breaching readings, and trips the guard
/// once that run reaches [`DRAWDOWN_CONFIRM_CYCLES`]; an unread balance changes nothing.
pub open spec fn guard_after(g: DrawdownGuard, balance: int, max_pct: int) -> DrawdownGuard {
    if balance > 0 {
        let peak = if balance > g.peak_balance {
            balance
        } else {
            g.peak_balance as int
        };
        let breaches = if drawdown_reached(peak, balance, max_pct) {
            if g.breaches < u32::MAX {
                g.breaches + 1
            } else {
                g.breaches as int
            }
        } else {
            0
        };
        DrawdownGuard {
            peak_balance: peak as i64,
            breaches: breaches as u32,
            hit: g.hit || breaches >= DRAWDOWN_CONFIRM_CYCLES,
        }
    } else {
        g
    }
}

impl DrawdownGuard {
    /// A guard seeded with the session's starting balance.
    pub fn new(baseline: i64) -> (r: DrawdownGuard)
        ensures
            r.peak_balance == baseline,
            r.breaches == 0,
            !r.hit,
    {
        DrawdownGuard { peak_balance: baseline, breaches: 0, hit: false }
    }

    /// A guard that resumes the high-water mark saved for the account: the higher of the
    /// saved peak and the session's starting balance.
    pub fn resume(saved_peak: i64, baseline: i64) -> (r: DrawdownGuard)
        ensures
            r.peak_balance == (if saved_peak > baseline {
                saved_peak
            } else {
                baseline
            }),
            r.breaches == 0,
            !r.hit,
    {
        let peak = if saved_peak > baseline {
            saved_peak
        } else {
            baseline
        };
        DrawdownGuard { peak_balance: peak, breaches: 0, hit: false }
    }

    /// Reset the guard: the current balance becomes the high-water mark and a halt clears.
    pub fn reset(&mut self, balance: i64)
        ensures
            final(self).peak_balance == balance,
            final(self).breaches == 0,
            !final(self).hit,
    {
        self.peak_balance = balance;
        self.breaches = 0;
        self.hit = false;
    }

    /// Observe the current balance; returns whether the guard trips now (it was not hit
    /// before and the drawdown from the peak has reached `max_pct` for
    /// [`DRAWDOWN_CONFIRM_CYCLES`] valid readings in a row). A non-positive balance (an
    /// unread one) is ignored.
    pub fn observe(&mut self, balance: i64, max_pct: i64) -> (tripped: bool)
        ensures
            *final(self) == guard_after(*old(self), balance as int, max_pct as int),
            tripped == (!old(self).hit && final(self).hit),
    {
        if balance > 0 {
            let peak = if balance > self.peak_balance {
                balance
            } else {
                self.peak_balance
            };
            self.peak_balance = peak;
            let drop: i128 = peak as i128 - balance as i128;
            assert(0 <= drop < 0x1_0000_0000_0000_0000);
            let lhs: i128 = drop * 1_000_000;
            assert((max_pct as int) * (peak as int) <= 0x4000_0000_0000_0000_0000_0000_0000_0000
                && (max_pct as int) * (peak as int) >= -0x4000_0000_0000_0000_0000_0000_0000_0000)
                by (nonlinear_arith)
                requires
                    i64::MIN <= max_pct <= i64::MAX,
                    0 < peak <= i64::MAX,
            ;
            let rhs: i128 = (max_pct as i128) * (peak as i128);
            if lhs >= rhs {
                if self.breaches < u32::MAX {
                    self.breaches = self.breaches + 1;
                }
            } else {
                self.breaches = 0;
            }
            if self.breaches >= DRAWDOWN_CONFIRM_CYCLES && !self.hit {
                self.hit = true;
                return true;
            }
            false
        } else {
            false
        }
    }
}

/// Once tripped, the drawdown guard stays tripped until it is reset, and the peak never
/// falls.
pub proof fn law_drawdown_guard_latches(g: DrawdownGuard, balance: int, max_pct: int)
    requires
        balance <= i64::MAX,
    ensures
        g.hit ==> guard_after(g, balance, max_pct).hit,
        guard_after(g, balance, max_pct).peak_balance >= g.peak_balance,
{
}

/// A single breaching reading never trips a guard that has seen no breach before it.
pub proof fn law_one_bad_reading_never_trips(g: DrawdownGuard, balance: int, max_pct: int)
    requires
        !g.hit,
        g.breaches == 0,
        balance <= i64::MAX,
    ensures
        !guard_after(g, balance, max_pct).hit,
{
}

// ── submitting intents ───────────────────────────────────────────────────────

/// Why an intent is not submitted this cycle.
#[derive(Debug, Clone, Copy, PartialEq, Eq, Structural)]
pub enum Hold {
    /// A market order of ours is already working on this contract and side (submitting
    /// another is exactly what trips IBKR error 201).
    InFlight,
    /// IBKR rejected this contract and side recently; it is cooling off.
    Rejected,
    /// New-Only mode: the master already held this symbol when the session started.
    PreExisting,
    /// The symbol's last order is still settling.
    Cooldown,
}

/// The checks before the margin check: in-flight market orders, then rejection backoff.
pub open spec fn pre_margin_hold(
    intent: TradeIntent,
    active_market: Seq<(String, Side)>,
    backing_off: bool,
) -> Option<Hold> {
    if exists|i: int| 0 <= i < active_market.len() && active_market[i].0@ == intent.symbol@
        && active_market[i].1 == intent.side {
        Some(Hold::InFlight)
    } else if backing_off {
        Some(Hold::Rejected)
    } else {
        None
    }
}

/// First hold that applies before margin is checked.
pub fn hold_before_margin(intent: &TradeIntent, active_market: &[(String, Side)], backing_off: bool) -> (r: Option<Hold>)
    ensures
        r == pre_margin_hold(*intent, active_market@, backing_off),
{
    let mut i: usize = 0;
    while i < active_market.len()
        invariant
            i <= active_market@.len(),
            forall|j: int| 0 <= j < i ==> !(active_market@[j].0@ == intent.symbol@ && active_market@[j].1 == intent.side),
        decreases active_market.len() - i,
    {
        if active_market[i].1 == intent.side && active_market[i].0 == intent.symbol {
            return Some(Hold::InFlight);
        }
        i = i + 1;
    }
    if backing_off {
        Some(Hold::Rejected)
    } else {
        None
    }
}

/// The checks after margin: New-Only mode skips opening a symbol the master held at the
/// start of the session (orphan closes and reduces always proceed), then the per-symbol
/// cooldown.
pub open spec fn post_margin_hold(
    intent: TradeIntent,
    new_only: bool,
    baseline: Option<Seq<String>>,
    cooling_down: bool,
) -> Option<Hold> {
    let held_at_start = match baseline {
        Some(b) => listed(b, intent.symbol@),
        None => false,
    };
    if new_only && intent.reason == IntentReason::OpenMissing && held_at_start {
        Some(Hold::PreExisting)
    } else if cooling_down {
        Some(Hold::Cooldown)
    } else {
        None
    }
}

/// `sym` is one of the names in `b`.
pub open spec fn listed(b: Seq<String>, sym: Seq<char>) -> bool {
    exists|i: int| 0 <= i < b.len() && #[trigger] b[i]@ == sym
}

pub open spec fn opt_names(b: Option<&[String]>) -> Option<Seq<String>> {
    match b {
        Some(v) => Some(v@),
        None => None,
    }
}

/// First hold that applies after margin is checked.
pub fn hold_after_margin(
    intent: &TradeIntent,
    new_only: bool,
    baseline: Option<&[String]>,
    cooling_down: bool,
) -> (r: Option<Hold>)
    ensures
        r == post_margin_hold(*intent, new_only, opt_names(baseline), cooling_down),
{
    if new_only && is_open_missing(intent.reason) {
        if let Some(b) = baseline {
            let mut i: usize = 0;
            while i < b.len()
                invariant
                    i <= b@.len(),
                    opt_names(baseline) == Some(b@),
                    new_only,
                    intent.reason == IntentReason::OpenMissing,
                    forall|j: int| 0 <= j < i ==> b@[j]@ != intent.symbol@,
                decreases b.len() - i,
            {
                if b[i] == intent.symbol {
                    proof {
                        assert(b@[i as int]@ == intent.symbol@);
                        assert(listed(b@, intent.symbol@));
                    }
                    return Some(Hold::PreExisting);
                }
                i = i + 1;
            }
        }
    }
    if cooling_down {
        Some(Hold::Cooldown)
    } else {
        None
    }
}

fn is_open_missing(r: IntentReason) -> (b: bool)
    ensures
        b == (r == IntentReason::OpenMissing),
{
    match r {
        IntentReason::OpenMissing => true,
        _ => false,
    }
}

/// The margin decision for an opening order: with a what-if initial-margin figure, the
/// order fits when the cycle's remaining buying power covers it (which then shrinks by
/// it); when the what-if could not be evaluated, IBKR's own real-time check decides, so
/// the order goes ahead.
pub open spec fn margin_step(projected: int, init_margin: Option<int>) -> (bool, int) {
    match init_margin {
        Some(m) => if projected - m < 0 {
            (false, projected)
        } else {
            (true, projected - m)
        },
        None => (true, projected),
    }
}

/// Decide whether an opening order fits the cycle's buying power (fixed-point money), and
/// the buying power left after it.
pub fn margin_allows(projected: i64, init_margin: Option<i64>) -> (r: (bool, i64))
    requires
        init_margin matches Some(m) ==> m >= 0,
    ensures
        r.0 == margin_step(projected as int, opt_i64(init_margin)).0,
        r.1 == margin_step(projected as int, opt_i64(init_margin)).1,
{
    match init_margin {
        Some(m) => {
            let left = projected as i128 - m as i128;
            if left < 0 {
                (false, projected)
            } else {
                (true, left as i64)
            }
        },
        None => (true, projected),
    }
}

pub open spec fn opt_i64(o: Option<i64>) -> Option<int> {
    match o {
        Some(v) => Some(v as int),
        None => None,
    }
}

/// Opening orders approved within one cycle never need more margin, together, than the
/// buying power the cycle started with.
pub proof fn law_margin_budget(start: int, m1: int, m2: int)
    requires
        m1 >= 0,
        m2 >= 0,
        margin_step(start, Some(m1)).0,
        margin_step(margin_step(start, Some(m1)).1, Some(m2)).0,
    ensures
        m1 + m2 <= start,
{
}

// ── close all ────────────────────────────────────────────────────────────────

/// The market orders CLOSE ALL sends: one per position, on the closing side, for its
/// whole size.
pub open spec fn close_orders(ps: Seq<Position>) -> Seq<(Side, int)> {
    Seq::new(
        ps.len(),
        |i: int|
            (if ps[i].net_qty > 0 {
                Side::Sell
            } else {
                Side::Buy
            }, if ps[i].net_qty < 0 {
                -(ps[i].net_qty as int)
            } else {
                ps[i].net_qty as int
            }),
    )
}

/// The (side, quantity) of each flattening order.
pub fn close_all_orders(positions: &[Position]) -> (r: Vec<(Side, i64)>)
    requires
        forall|i: int| 0 <= i < positions@.len() ==> (#[trigger] positions@[i]).wf(),
    ensures
        r@.len() == positions@.len(),
        forall|i: int| 0 <= i < r@.len() ==> (#[trigger] r@[i]).0 == close_orders(positions@)[i].0
            && r@[i].1 == close_orders(positions@)[i].1,
{
    let mut out: Vec<(Side, i64)> = Vec::new();
    let mut i: usize = 0;
    while i < positions.len()
        invariant
            i <= positions@.len(),
            forall|j: int| 0 <= j < positions@.len() ==> (#[trigger] positions@[j]).wf(),
            out@.len() == i,
            forall|j: int| 0 <= j < i ==> (#[trigger] out@[j]).0 == close_orders(positions@)[j].0
                && out@[j].1 == close_orders(positions@)[j].1,
        decreases positions.len() - i,
    {
        let q = positions[i].net_qty;
        proof {
            assert(positions@[i as int].wf());
        }
        let side = Side::closing(q);
        let qty = if q < 0 {
            -q
        } else {
            q
        };
        out.push((side, qty));
        i = i + 1;
    }
    out
}

/// Each CLOSE ALL order brings its position exactly to flat.
pub proof fn law_close_all_flattens(ps: Seq<Position>, i: int)
    requires
        0 <= i < ps.len(),
    ensures
        ps[i].net_qty + (if close_orders(ps)[i].0 == Side::Buy {
            close_orders(ps)[i].1
        } else {
            -close_orders(ps)[i].1
        }) == 0,
{
}

/// What the master feed gave this cycle.
#[derive(Debug, Clone, Copy, PartialEq, Eq, Structural)]
pub enum FeedCheck {
    /// Not asked yet this cycle.
    NotFetched,
    /// The snapshot could not be fetched or was refused.
    Unavailable,
    /// The position count collapsed: the feed looks partial.
    Partial,
    /// A master position is larger than the amounts are sized for.
    OutOfRange,
    /// A usable snapshot.
    Ready,
}

/// What a sync cycle does next.
#[derive(Debug, Clone, Copy, PartialEq, Eq, Structural)]
pub enum CycleDecision {
    /// The drawdown limit was hit: hold until reset or restart.
    HoldDrawdown,
    /// Trading is halted (after CLOSE ALL): hold until START.
    HoldHalted,
    /// Fetch the master snapshot.
    Fetch,
    /// Skip the cycle: no snapshot.
    SkipUnavailable,
    /// Skip the cycle: the feed looks partial.
    SkipPartial,
    /// Skip the cycle: a master position is out of range.
    SkipOutOfRange,
    /// RTH-only and the market is closed: hold.
    HoldOffHours,
    /// Reconcile and trade.
    Trade,
}

/// The cycle's checks in order: the drawdown halt, the manual halt, then the master
/// feed, then regular trading hours when RTH-only is set.
pub open spec fn cycle_spec(halted: bool, drawdown_hit: bool, feed: FeedCheck, rth_only: bool, in_rth: bool) -> CycleDecision {
    if drawdown_hit {
        CycleDecision::HoldDrawdown
    } else if halted {
        CycleDecision::HoldHalted
    } else {
        match feed {
            FeedCheck::NotFetched => CycleDecision::Fetch,
            FeedCheck::Unavailable => CycleDecision::SkipUnavailable,
            FeedCheck::Partial => CycleDecision::SkipPartial,
            FeedCheck::OutOfRange => CycleDecision::SkipOutOfRange,
            FeedCheck::Ready => if rth_only && !in_rth {
                CycleDecision::HoldOffHours
            } else {
                CycleDecision::Trade
            },
        }
    }
}

/// Decide what a sync cycle does next.
pub fn cycle_gate(halted: bool, drawdown_hit: bool, feed: FeedCheck, rth_only: bool, in_rth: bool) -> (r: CycleDecision)
    ensures
        r == cycle_spec(halted, drawdown_hit, feed, rth_only, in_rth),
{
    if drawdown_hit {
        CycleDecision::HoldDrawdown
    } else if halted {
        CycleDecision::HoldHalted
    } else {
        match feed {
            FeedCheck::NotFetched => CycleDecision::Fetch,
            FeedCheck::Unavailable => CycleDecision::SkipUnavailable,
            FeedCheck::Partial => CycleDecision::SkipPartial,
            FeedCheck::OutOfRange => CycleDecision::SkipOutOfRange,
            FeedCheck::Ready => if rth_only && !in_rth {
                CycleDecision::HoldOffHours
            } else {
                CycleDecision::Trade
            },
        }
    }
}

/// A cycle trades only when neither halt is on, the feed gave a usable snapshot, and,
/// under RTH-only, the market is open; a halted session never even asks the master.
pub proof fn law_trade_only_when_clear(halted: bool, drawdown_hit: bool, feed: FeedCheck, rth_only: bool, in_rth: bool)
    ensures
        cycle_spec(halted, drawdown_hit, feed, rth_only, in_rth) == CycleDecision::Trade ==> !halted
            && !drawdown_hit && feed == FeedCheck::Ready && (rth_only ==> in_rth),
        (halted || drawdown_hit) ==> cycle_spec(halted, drawdown_hit, feed, rth_only, in_rth) != CycleDecision::Fetch,
{
}

} // verus!
