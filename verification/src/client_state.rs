//! Client-side shared state: the operator's modes, the bounded activity log, and the
//! update-check status shown in the GUI.

use vstd::prelude::*;

use crate::clock::{clock_unix_millis, hms_spec, hms_string};
use crate::model::PRICE_SCALE;

verus! {

/// Which IBKR login the client trades on.
#[derive(Debug, Clone, Copy, PartialEq, Eq, Structural)]
pub enum AccountMode {
    Live,
    Paper,
}

/// Whether the client mirrors short positions or only long ones.
#[derive(Debug, Clone, Copy, PartialEq, Eq, Structural)]
pub enum TradeMode {
    LongShort,
    LongOnly,
}

/// How much of the master's book the client mirrors.
#[derive(Debug, Clone, Copy, PartialEq, Eq, Structural)]
pub enum ExecutionMode {
    /// Mirror the master's entire structure: open missing, close orphans, resize. This
    /// is the recommended mode and the one that fulfils full structural sync.
    ExistingPlusNew,
    /// Ignore positions the master already held when START was pressed; only act on
    /// changes after start (orphan closes always proceed).
    NewOnly,
}

/// Severity / kind of a client log line.
#[derive(Debug, Clone, Copy, PartialEq, Eq, Structural)]
pub enum LogLevel {
    Info,
    Success,
    Warn,
    Error,
    Buy,
    Sell,
}

/// One timestamped client log line.
#[derive(Debug)]
pub struct LogLine {
    pub ts: String,
    pub level: LogLevel,
    pub msg: String,
}

/// The mathematical content of a [`LogLine`].
pub struct LogLineView {
    pub ts: Seq<char>,
    pub level: LogLevel,
    pub msg: Seq<char>,
}

impl View for LogLine {
    type V = LogLineView;

    open spec fn view(&self) -> LogLineView {
        LogLineView { ts: self.ts@, level: self.level, msg: self.msg@ }
    }
}

impl Clone for LogLine {
    fn clone(&self) -> (r: Self)
        ensures
            r == *self,
    {
        LogLine { ts: self.ts.clone(), level: self.level, msg: self.msg.clone() }
    }
}

/// How many lines the client log keeps.
pub const CLIENT_LOG_CAP: usize = 800;

/// The last `cap` elements of `s` (all of `s` when it is no longer than `cap`).
pub open spec fn keep_last<A>(s: Seq<A>, cap: nat) -> Seq<A> {
    if s.len() > cap {
        s.subrange(s.len() - cap, s.len() as int)
    } else {
        s
    }
}

/// Bounded in-memory log: the most recent [`CLIENT_LOG_CAP`] lines, oldest first.
#[derive(Debug)]
pub struct LogBuffer {
    lines: Vec<LogLine>,
}

impl View for LogBuffer {
    type V = Seq<LogLineView>;

    closed spec fn view(&self) -> Seq<LogLineView> {
        self.lines@.map_values(|l: LogLine| l@)
    }
}

impl Default for LogBuffer {
    fn default() -> (r: LogBuffer)
        ensures
            r@ == Seq::<LogLineView>::empty(),
    {
        let r = LogBuffer { lines: Vec::new() };
        proof {
            assert(r@ =~= Seq::<LogLineView>::empty());
        }
        r
    }
}

/// Drop lines from the front of `lines` until at most `cap` remain.
fn drop_oldest(lines: &mut Vec<LogLine>, cap: usize)
    ensures
        final(lines)@ == keep_last(old(lines)@, cap as nat),
{
    let ghost orig = lines@;
    while lines.len() > cap
        invariant
            lines@.len() <= orig.len(),
            lines@ == orig.subrange(orig.len() - lines@.len(), orig.len() as int),
            orig.len() > cap ==> lines@.len() >= cap,
            orig.len() <= cap ==> lines@.len() == orig.len(),
        decreases lines.len(),
    {
        lines.remove(0);
    }
    proof {
        assert(lines@ =~= keep_last(orig, cap as nat));
    }
}

impl LogBuffer {
    /// Append a line stamped `ts`, dropping the oldest lines beyond the cap.
    pub fn push_at(&mut self, level: LogLevel, msg: &str, ts: String)
        ensures
            final(self)@ == keep_last(
                old(self)@.push(LogLineView { ts: ts@, level, msg: msg@ }),
                CLIENT_LOG_CAP as nat,
            ),
    {
        let ghost before = self.lines@;
        let line = LogLine { ts, level, msg: msg.to_string() };
        self.lines.push(line);
        proof {
            assert(self.lines@ == before.push(line));
        }
        drop_oldest(&mut self.lines, CLIENT_LOG_CAP);
        proof {
            let pushed = before.push(line);
            assert(pushed.map_values(|l: LogLine| l@) =~= before.map_values(|l: LogLine| l@).push(
                line@,
            ));
            assert(keep_last(pushed, CLIENT_LOG_CAP as nat).map_values(|l: LogLine| l@) =~= keep_last(
                pushed.map_values(|l: LogLine| l@),
                CLIENT_LOG_CAP as nat,
            ));
        }
    }

    /// Append a line stamped with the current wall-clock time, dropping the oldest lines
    /// beyond the cap.
    pub fn push(&mut self, level: LogLevel, msg: &str)
        ensures
            exists|secs: nat|
                final(self)@ == keep_last(
                    #[trigger] old(self)@.push(LogLineView { ts: hms_spec(secs), level, msg: msg@ }),
                    CLIENT_LOG_CAP as nat,
                ),
    {
        let secs = clock_unix_millis() / 1000;
        let ts = hms_string(secs);
        self.push_at(level, msg, ts);
    }

    /// The retained lines, oldest first.
    pub fn lines(&self) -> (r: &[LogLine])
        ensures
            r@.map_values(|l: LogLine| l@) == self@,
    {
        self.lines.as_slice()
    }
}

/// The log never holds more than [`CLIENT_LOG_CAP`] lines, the newest line is the one
/// just pushed, and the lines kept are the newest ones in the order they were pushed.
pub proof fn law_client_log_keeps_newest(before: Seq<LogLineView>, line: LogLineView)
    requires
        before.len() <= CLIENT_LOG_CAP,
    ensures
        keep_last(before.push(line), CLIENT_LOG_CAP as nat).len() <= CLIENT_LOG_CAP,
        keep_last(before.push(line), CLIENT_LOG_CAP as nat).last() == line,
        before.len() < CLIENT_LOG_CAP ==> keep_last(before.push(line), CLIENT_LOG_CAP as nat)
            == before.push(line),
        before.len() == CLIENT_LOG_CAP ==> keep_last(before.push(line), CLIENT_LOG_CAP as nat)
            == before.drop_first().push(line),
{
    if before.len() == CLIENT_LOG_CAP {
        assert(keep_last(before.push(line), CLIENT_LOG_CAP as nat) =~= before.drop_first().push(
            line,
        ));
    }
}

/// Operator-set controls (GUI writes, engine reads). Money and ratios are fixed-point
/// (`PRICE_SCALE` per unit; the multiplier's unit is 1.0x, the drawdown's is 1%).
#[derive(Debug)]
pub struct Controls {
    pub account_mode: AccountMode,
    pub trade_mode: TradeMode,
    pub execution_mode: ExecutionMode,
    pub multiplier: i64,
    pub max_drawdown_pct: i64,
    pub max_position_notional: i64,
    pub max_position_qty: i64,
    /// IB host/ports (editable in the GUI; applied on the next START).
    pub ib_host: String,
    pub ib_port_live: u16,
    pub ib_port_paper: u16,
    /// IBKR account id to operate on. Blank = use the sole account; required (refuses to
    /// trade) if the login manages more than one account.
    pub ib_account: String,
    /// Master HTTP URL the client polls (editable in the GUI; applied on START).
    pub master_url: String,
    /// When true, place no orders outside US equity regular trading hours (09:30–16:00 ET,
    /// Mon–Fri). The engine keeps polling and reflecting status; it just won't trade.
    pub rth_only: bool,
}

impl Clone for Controls {
    fn clone(&self) -> (r: Self)
        ensures
            r == *self,
    {
        Controls {
            account_mode: self.account_mode,
            trade_mode: self.trade_mode,
            execution_mode: self.execution_mode,
            multiplier: self.multiplier,
            max_drawdown_pct: self.max_drawdown_pct,
            max_position_notional: self.max_position_notional,
            max_position_qty: self.max_position_qty,
            ib_host: self.ib_host.clone(),
            ib_port_live: self.ib_port_live,
            ib_port_paper: self.ib_port_paper,
            ib_account: self.ib_account.clone(),
            master_url: self.master_url.clone(),
            rth_only: self.rth_only,
        }
    }
}

impl Default for Controls {
    fn default() -> (r: Controls)
        ensures
            r.account_mode == AccountMode::Live,
            r.trade_mode == TradeMode::LongShort,
            r.execution_mode == ExecutionMode::ExistingPlusNew,
            r.multiplier == PRICE_SCALE,
            r.max_drawdown_pct == 10 * PRICE_SCALE,
            r.max_position_notional == 0,
            r.max_position_qty == 0,
            r.ib_host@ == "127.0.0.1"@,
            r.ib_port_live == 4001,
            r.ib_port_paper == 4002,
            r.ib_account@ == Seq::<char>::empty(),
            r.master_url@ == "http://148.113.203.188:5001"@,
            !r.rth_only,
    {
        Controls {
            account_mode: AccountMode::Live,
            trade_mode: TradeMode::LongShort,
            execution_mode: ExecutionMode::ExistingPlusNew,
            multiplier: PRICE_SCALE,
            max_drawdown_pct: 10 * PRICE_SCALE,
            max_position_notional: 0,
            max_position_qty: 0,
            ib_host: "127.0.0.1".to_string(),
            ib_port_live: 4001,
            ib_port_paper: 4002,
            ib_account: String::new(),
            master_url: "http://148.113.203.188:5001".to_string(),
            rth_only: false,
        }
    }
}

impl Controls {
    /// The IB port of the selected account mode.
    pub fn port(&self) -> (r: u16)
        ensures
            r == (match self.account_mode {
                AccountMode::Live => self.ib_port_live,
                AccountMode::Paper => self.ib_port_paper,
            }),
    {
        match self.account_mode {
            AccountMode::Live => self.ib_port_live,
            AccountMode::Paper => self.ib_port_paper,
        }
    }
}

/// Engine-reported status (engine writes, GUI reads). Money fixed-point.
#[derive(Debug)]
pub struct Status {
    pub connected: bool,
    pub account: String,
    pub client_balance: i64,
    pub master_balance: i64,
    pub master_connected: bool,
    pub master_positions: usize,
    pub client_positions: usize,
    pub drawdown_hit: bool,
    pub last_sync: String,
    pub orders_placed: u64,
    pub orders_closed: u64,
    pub orders_failed: u64,
    // Margin / SMA snapshot.
    pub excess_liquidity: i64,
    /// Cushion as a fixed-point fraction.
    pub cushion: i64,
    pub sma: i64,
    pub margin_blocks_opens: bool,
    /// Trading is halted after a CLOSE ALL until the operator presses START.
    pub halted: bool,
}

impl Default for Status {
    fn default() -> (r: Status)
        ensures
            !r.connected,
            r.account@ == Seq::<char>::empty(),
            r.client_balance == 0,
            r.master_balance == 0,
            !r.master_connected,
            r.master_positions == 0,
            r.client_positions == 0,
            !r.drawdown_hit,
            r.last_sync@ == Seq::<char>::empty(),
            r.orders_placed == 0,
            r.orders_closed == 0,
            r.orders_failed == 0,
            r.excess_liquidity == 0,
            r.cushion == 0,
            r.sma == 0,
            !r.margin_blocks_opens,
            !r.halted,
    {
        Status {
            connected: false,
            account: String::new(),
            client_balance: 0,
            master_balance: 0,
            master_connected: false,
            master_positions: 0,
            client_positions: 0,
            drawdown_hit: false,
            last_sync: String::new(),
            orders_placed: 0,
            orders_closed: 0,
            orders_failed: 0,
            excess_liquidity: 0,
            cushion: 0,
            sma: 0,
            margin_blocks_opens: false,
            halted: false,
        }
    }
}

impl Status {
    /// START: the order counters restart from zero and the drawdown flag clears; nothing
    /// else changes.
    pub fn reset_for_start(&mut self)
        ensures
            final(self).orders_placed == 0,
            final(self).orders_closed == 0,
            final(self).orders_failed == 0,
            !final(self).drawdown_hit,
            final(self).connected == old(self).connected,
            final(self).account == old(self).account,
            final(self).client_balance == old(self).client_balance,
            final(self).master_balance == old(self).master_balance,
            final(self).master_connected == old(self).master_connected,
            final(self).master_positions == old(self).master_positions,
            final(self).client_positions == old(self).client_positions,
            final(self).last_sync == old(self).last_sync,
            final(self).excess_liquidity == old(self).excess_liquidity,
            final(self).cushion == old(self).cushion,
            final(self).sma == old(self).sma,
            final(self).margin_blocks_opens == old(self).margin_blocks_opens,
            final(self).halted == old(self).halted,
    {
        self.orders_placed = 0;
        self.orders_closed = 0;
        self.orders_failed = 0;
        self.drawdown_hit = false;
    }

    /// Count one submitted order: a closing one as closed, any other as placed.
    pub fn count_order(&mut self, closing: bool)
        requires
            old(self).orders_placed < u64::MAX,
            old(self).orders_closed < u64::MAX,
        ensures
            final(self).orders_closed == old(self).orders_closed + (if closing {
                1int
            } else {
                0
            }),
            final(self).orders_placed == old(self).orders_placed + (if closing {
                0int
            } else {
                1
            }),
            final(self).orders_failed == old(self).orders_failed,
    {
        if closing {
            self.orders_closed = self.orders_closed + 1;
        } else {
            self.orders_placed = self.orders_placed + 1;
        }
    }
}

/// What a CLOSE ALL request does: while the engine runs, it is armed (`true`) and logged
/// as requested; otherwise it is refused with a hint to press START first.
pub fn close_all_request(running: bool) -> (r: (bool, LogLevel, &'static str))
    ensures
        r.0 == running,
        r.1 == LogLevel::Warn,
        r.2@ == (if running {
            "CLOSE ALL requested."@
        } else {
            "Press START before using CLOSE ALL."@
        }),
{
    proof {
        reveal_strlit("CLOSE ALL requested.");
        reveal_strlit("Press START before using CLOSE ALL.");
    }
    if running {
        (true, LogLevel::Warn, "CLOSE ALL requested.")
    } else {
        (false, LogLevel::Warn, "Press START before using CLOSE ALL.")
    }
}

/// Non-invasive update-check status surfaced in the GUI.
#[derive(Debug)]
pub struct UpdateStatus {
    pub message: String,
    pub available: bool,
    pub url: String,
}

impl Default for UpdateStatus {
    fn default() -> (r: UpdateStatus)
        ensures
            r.message@ == Seq::<char>::empty(),
            !r.available,
            r.url@ == Seq::<char>::empty(),
    {
        UpdateStatus { message: String::new(), available: false, url: String::new() }
    }
}

impl Clone for UpdateStatus {
    fn clone(&self) -> (r: Self)
        ensures
            r == *self,
    {
        UpdateStatus {
            message: self.message.clone(),
            available: self.available,
            url: self.url.clone(),
        }
    }
}

/// The current UTC wall-clock time as `HH:MM:SS`.
pub fn now_hms() -> (r: String)
    ensures
        exists|secs: nat| r@ == #[trigger] hms_spec(secs),
{
    let secs = clock_unix_millis() / 1000;
    hms_string(secs)
}

} // verus!
