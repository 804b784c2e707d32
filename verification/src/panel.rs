//! The client's browser control panel: which handler a request reaches, what the
//! control and settings endpoints change, and the JSON documents it serves.
//!
//! The panel can START/STOP the engine and CLOSE ALL positions, so every endpoint but
//! the dashboard shell requires the panel key when one is set.

use vstd::prelude::*;

use crate::client_state::{AccountMode, Controls, ExecutionMode, LogBuffer, LogLevel, LogLine,
    LogLineView, Status, TradeMode};
use crate::model::PRICE_SCALE;
use crate::text::{decimal, push_decimal, push_signed_decimal, signed_decimal, str_eq, trim,
    trim_str};
use crate::web::{amount_text, bool_text, eq_ascii_nocase, eq_ignore_ascii_case, json_quote,
    json_string, push_amount, push_bool, HttpMethod};

verus! {

/// Where a panel request goes.
#[derive(Debug, Clone, Copy, PartialEq, Eq, Structural)]
pub enum PanelRoute {
    /// `GET /`: the dashboard shell (no key needed; its script sends the key).
    Dashboard,
    /// A key is set and the request did not present it.
    Unauthorized,
    /// `POST /control`.
    Control,
    /// `POST /settings`.
    Settings,
    /// Any other non-GET request.
    MethodNotAllowed,
    /// `GET /state`.
    State,
    /// `GET /log`.
    Log,
    NotFound,
}

pub open spec fn panel_route_spec(method: HttpMethod, path: Seq<char>, key: Seq<char>, provided: Seq<char>) -> PanelRoute {
    if path == "/"@ && method == HttpMethod::Get {
        PanelRoute::Dashboard
    } else if key.len() > 0 && provided != key {
        PanelRoute::Unauthorized
    } else if method == HttpMethod::Post && path == "/control"@ {
        PanelRoute::Control
    } else if method == HttpMethod::Post && path == "/settings"@ {
        PanelRoute::Settings
    } else if method != HttpMethod::Get {
        PanelRoute::MethodNotAllowed
    } else if path == "/state"@ {
        PanelRoute::State
    } else if path == "/log"@ {
        PanelRoute::Log
    } else {
        PanelRoute::NotFound
    }
}

/// Route a panel request: its method, path, the configured key and the `X-API-Key`
/// header it presented (empty when absent).
pub fn panel_route(method: HttpMethod, path: &str, key: &str, provided: &str) -> (r: PanelRoute)
    ensures
        r == panel_route_spec(method, path@, key@, provided@),
{
    if method == HttpMethod::Get && str_eq(path, "/") {
        return PanelRoute::Dashboard;
    }
    if key.unicode_len() > 0 && !str_eq(provided, key) {
        return PanelRoute::Unauthorized;
    }
    if method == HttpMethod::Post && str_eq(path, "/control") {
        return PanelRoute::Control;
    }
    if method == HttpMethod::Post && str_eq(path, "/settings") {
        return PanelRoute::Settings;
    }
    if method != HttpMethod::Get {
        return PanelRoute::MethodNotAllowed;
    }
    if str_eq(path, "/state") {
        PanelRoute::State
    } else if str_eq(path, "/log") {
        PanelRoute::Log
    } else {
        PanelRoute::NotFound
    }
}

/// Only the dashboard shell is served without the key, when one is set.
pub proof fn law_panel_requires_key(method: HttpMethod, path: Seq<char>, key: Seq<char>, provided: Seq<char>)
    requires
        key.len() > 0,
        provided != key,
    ensures
        panel_route_spec(method, path, key, provided) == PanelRoute::Dashboard
            || panel_route_spec(method, path, key, provided) == PanelRoute::Unauthorized,
{
}

/// An operator action posted to `/control`.
#[derive(Debug, Clone, Copy, PartialEq, Eq, Structural)]
pub enum ControlAction {
    Start,
    Stop,
    CloseAll,
    /// Re-baseline the drawdown high-water mark to current equity and clear a halt.
    ResetDrawdown,
}

/// The action named by a `/control` body's `action` field (`None`: ignored).
pub fn control_action(action: &str) -> (r: Option<ControlAction>)
    ensures
        r == (if action@ == "start"@ {
            Some(ControlAction::Start)
        } else if action@ == "stop"@ {
            Some(ControlAction::Stop)
        } else if action@ == "close_all"@ {
            Some(ControlAction::CloseAll)
        } else if action@ == "reset_drawdown"@ {
            Some(ControlAction::ResetDrawdown)
        } else {
            None
        }),
{
    if str_eq(action, "start") {
        Some(ControlAction::Start)
    } else if str_eq(action, "stop") {
        Some(ControlAction::Stop)
    } else if str_eq(action, "close_all") {
        Some(ControlAction::CloseAll)
    } else if str_eq(action, "reset_drawdown") {
        Some(ControlAction::ResetDrawdown)
    } else {
        None
    }
}

// ── settings ─────────────────────────────────────────────────────────────────

/// A `/settings` body: each present field replaces the control (money and ratios
/// fixed-point as in [`Controls`]).
#[derive(Debug)]
pub struct SettingsUpdate {
    pub account_mode: Option<String>,
    pub trade_mode: Option<String>,
    pub execution_mode: Option<String>,
    pub multiplier: Option<i64>,
    pub max_drawdown_pct: Option<i64>,
    pub max_position_notional: Option<i64>,
    pub max_position_qty: Option<i64>,
    pub ib_host: Option<String>,
    pub ib_port_live: Option<u16>,
    pub ib_port_paper: Option<u16>,
}

/// Smallest and largest multiplier the panel accepts: 0.1x and 5.0x.
pub const MIN_MULTIPLIER: i64 = 1_000;
pub const MAX_MULTIPLIER: i64 = 50_000;
/// Smallest and largest drawdown limit the panel accepts: 1% and 50%.
pub const MIN_DRAWDOWN: i64 = 10_000;
pub const MAX_DRAWDOWN: i64 = 500_000;

pub open spec fn clamp_spec(v: int, lo: int, hi: int) -> int {
    if v < lo {
        lo
    } else if v > hi {
        hi
    } else {
        v
    }
}

fn clamp_i64(v: i64, lo: i64, hi: i64) -> (r: i64)
    requires
        lo <= hi,
    ensures
        r == clamp_spec(v as int, lo as int, hi as int),
{
    if v < lo {
        lo
    } else if v > hi {
        hi
    } else {
        v
    }
}

/// Apply a settings update to the controls: modes by name (`live`, `long_only`, `new`,
/// in any ASCII case; any other name selects the alternative), the multiplier clamped to
/// `[0.1x, 5.0x]`, the drawdown limit to `[1%, 50%]`, position caps at least 0, a host
/// only when it is not blank (trimmed), ports as given.
pub fn apply_settings(c: &mut Controls, u: SettingsUpdate)
    ensures
        final(c).account_mode == (match u.account_mode {
            Some(v) => if eq_ascii_nocase(v@, "live"@) {
                AccountMode::Live
            } else {
                AccountMode::Paper
            },
            None => old(c).account_mode,
        }),
        final(c).trade_mode == (match u.trade_mode {
            Some(v) => if eq_ascii_nocase(v@, "long_only"@) {
                TradeMode::LongOnly
            } else {
                TradeMode::LongShort
            },
            None => old(c).trade_mode,
        }),
        final(c).execution_mode == (match u.execution_mode {
            Some(v) => if eq_ascii_nocase(v@, "new"@) {
                ExecutionMode::NewOnly
            } else {
                ExecutionMode::ExistingPlusNew
            },
            None => old(c).execution_mode,
        }),
        final(c).multiplier == (match u.multiplier {
            Some(v) => clamp_spec(v as int, MIN_MULTIPLIER as int, MAX_MULTIPLIER as int),
            None => old(c).multiplier as int,
        }),
        final(c).max_drawdown_pct == (match u.max_drawdown_pct {
            Some(v) => clamp_spec(v as int, MIN_DRAWDOWN as int, MAX_DRAWDOWN as int),
            None => old(c).max_drawdown_pct as int,
        }),
        final(c).max_position_notional == (match u.max_position_notional {
            Some(v) => if v < 0 {
                0
            } else {
                v
            },
            None => old(c).max_position_notional,
        }),
        final(c).max_position_qty == (match u.max_position_qty {
            Some(v) => if v < 0 {
                0
            } else {
                v
            },
            None => old(c).max_position_qty,
        }),
        final(c).ib_host@ == (match u.ib_host {
            Some(v) => if trim(v@).len() > 0 {
                trim(v@)
            } else {
                old(c).ib_host@
            },
            None => old(c).ib_host@,
        }),
        final(c).ib_port_live == (match u.ib_port_live {
            Some(p) => p,
            None => old(c).ib_port_live,
        }),
        final(c).ib_port_paper == (match u.ib_port_paper {
            Some(p) => p,
            None => old(c).ib_port_paper,
        }),
        final(c).ib_account == old(c).ib_account,
        final(c).master_url == old(c).master_url,
        final(c).rth_only == old(c).rth_only,
{
    let account_mode = match &u.account_mode {
        Some(v) => if eq_ignore_ascii_case(v.as_str(), "live") {
            AccountMode::Live
        } else {
            AccountMode::Paper
        },
        None => c.account_mode,
    };
    let trade_mode = match &u.trade_mode {
        Some(v) => if eq_ignore_ascii_case(v.as_str(), "long_only") {
            TradeMode::LongOnly
        } else {
            TradeMode::LongShort
        },
        None => c.trade_mode,
    };
    let execution_mode = match &u.execution_mode {
        Some(v) => if eq_ignore_ascii_case(v.as_str(), "new") {
            ExecutionMode::NewOnly
        } else {
            ExecutionMode::ExistingPlusNew
        },
        None => c.execution_mode,
    };
    let limits = new_limits(c, &u);
    let host = new_host(&c.ib_host, &u.ib_host);
    c.account_mode = account_mode;
    c.trade_mode = trade_mode;
    c.execution_mode = execution_mode;
    c.multiplier = limits.0;
    c.max_drawdown_pct = limits.1;
    c.max_position_notional = limits.2;
    c.max_position_qty = limits.3;
    c.ib_host = host;
    if let Some(p) = u.ib_port_live {
        c.ib_port_live = p;
    }
    if let Some(p) = u.ib_port_paper {
        c.ib_port_paper = p;
    }
}

fn new_limits(c: &Controls, u: &SettingsUpdate) -> (r: (i64, i64, i64, i64))
    ensures
        r.0 == (match u.multiplier {
            Some(v) => clamp_spec(v as int, MIN_MULTIPLIER as int, MAX_MULTIPLIER as int),
            None => c.multiplier as int,
        }),
        r.1 == (match u.max_drawdown_pct {
            Some(v) => clamp_spec(v as int, MIN_DRAWDOWN as int, MAX_DRAWDOWN as int),
            None => c.max_drawdown_pct as int,
        }),
        r.2 == (match u.max_position_notional {
            Some(v) => if v < 0 {
                0
            } else {
                v
            },
            None => c.max_position_notional,
        }),
        r.3 == (match u.max_position_qty {
            Some(v) => if v < 0 {
                0
            } else {
                v
            },
            None => c.max_position_qty,
        }),
{
    let m = match u.multiplier {
        Some(v) => clamp_i64(v, MIN_MULTIPLIER, MAX_MULTIPLIER),
        None => c.multiplier,
    };
    let d = match u.max_drawdown_pct {
        Some(v) => clamp_i64(v, MIN_DRAWDOWN, MAX_DRAWDOWN),
        None => c.max_drawdown_pct,
    };
    let n = match u.max_position_notional {
        Some(v) => if v < 0 {
            0
        } else {
            v
        },
        None => c.max_position_notional,
    };
    let q = match u.max_position_qty {
        Some(v) => if v < 0 {
            0
        } else {
            v
        },
        None => c.max_position_qty,
    };
    (m, d, n, q)
}

fn new_host(old_host: &String, v: &Option<String>) -> (r: String)
    ensures
        r@ == (match v {
            Some(v) => if trim(v@).len() > 0 {
                trim(v@)
            } else {
                old_host@
            },
            None => old_host@,
        }),
{
    match v {
        Some(v) => {
            let t = trim_str(v.as_str());
            if t.unicode_len() > 0 {
                t.to_string()
            } else {
                old_host.clone()
            }
        },
        None => old_host.clone(),
    }
}

/// Whatever the panel posts, the multiplier and drawdown limit stay within their bounds.
pub proof fn law_settings_stay_in_bounds(v: int, w: int)
    ensures
        MIN_MULTIPLIER <= clamp_spec(v, MIN_MULTIPLIER as int, MAX_MULTIPLIER as int) <= MAX_MULTIPLIER,
        MIN_DRAWDOWN <= clamp_spec(w, MIN_DRAWDOWN as int, MAX_DRAWDOWN as int) <= MAX_DRAWDOWN,
{
}


// ── documents ────────────────────────────────────────────────────────────────

pub open spec fn account_mode_text_spec(m: AccountMode) -> Seq<char> {
    match m {
        AccountMode::Live => "live"@,
        AccountMode::Paper => "paper"@,
    }
}

pub open spec fn trade_mode_text_spec(m: TradeMode) -> Seq<char> {
    match m {
        TradeMode::LongShort => "long_short"@,
        TradeMode::LongOnly => "long_only"@,
    }
}

pub open spec fn execution_mode_text_spec(m: ExecutionMode) -> Seq<char> {
    match m {
        ExecutionMode::ExistingPlusNew => "existing"@,
        ExecutionMode::NewOnly => "new"@,
    }
}

fn account_mode_text(m: AccountMode) -> (r: &'static str)
    ensures
        r@ == account_mode_text_spec(m),
{
    proof {
        reveal_strlit("live");
        reveal_strlit("paper");
    }
    match m {
        AccountMode::Live => "live",
        AccountMode::Paper => "paper",
    }
}

fn trade_mode_text(m: TradeMode) -> (r: &'static str)
    ensures
        r@ == trade_mode_text_spec(m),
{
    proof {
        reveal_strlit("long_short");
        reveal_strlit("long_only");
    }
    match m {
        TradeMode::LongShort => "long_short",
        TradeMode::LongOnly => "long_only",
    }
}

fn execution_mode_text(m: ExecutionMode) -> (r: &'static str)
    ensures
        r@ == execution_mode_text_spec(m),
{
    proof {
        reveal_strlit("existing");
        reveal_strlit("new");
    }
    match m {
        ExecutionMode::ExistingPlusNew => "existing",
        ExecutionMode::NewOnly => "new",
    }
}

/// The status half of the `/state` document.
pub open spec fn status_part(running: bool, s: Status) -> Seq<char> {
    status_head(running, s) + status_tail(s)
}

pub open spec fn status_head(running: bool, s: Status) -> Seq<char> {
    "{\"running\":"@ + bool_text(running) + ",\"connected\":"@ + bool_text(s.connected) + ",\"account\":"@ + json_string(s.account@) + ",\"client_balance\":"@ + amount_text(s.client_balance as int) + ",\"master_balance\":"@ + amount_text(s.master_balance as int) + ",\"master_connected\":"@ + bool_text(s.master_connected)
}

pub open spec fn status_tail(s: Status) -> Seq<char> {
    ",\"master_positions\":"@ + decimal(s.master_positions as nat) + ",\"client_positions\":"@ + decimal(s.client_positions as nat) + ",\"drawdown_hit\":"@ + bool_text(s.drawdown_hit) + ",\"last_sync\":"@ + json_string(s.last_sync@) + ",\"orders_placed\":"@ + decimal(s.orders_placed as nat) + ",\"orders_closed\":"@ + decimal(s.orders_closed as nat) + ",\"orders_failed\":"@ + decimal(s.orders_failed as nat)
}

/// The controls half of the `/state` document.
pub open spec fn controls_part(c: Controls) -> Seq<char> {
    ",\"controls\":{\"account_mode\":\""@ + account_mode_text_spec(c.account_mode) + "\",\"trade_mode\":\""@ + trade_mode_text_spec(c.trade_mode) + "\",\"execution_mode\":\""@ + execution_mode_text_spec(c.execution_mode) + "\",\"multiplier\":"@ + amount_text(c.multiplier as int) + ",\"max_drawdown_pct\":"@ + amount_text(c.max_drawdown_pct as int) + ",\"max_position_notional\":"@ + amount_text(c.max_position_notional as int) + ",\"max_position_qty\":"@ + signed_decimal(c.max_position_qty as int) + ",\"ib_host\":"@ + json_string(c.ib_host@) + ",\"ib_port_live\":"@ + decimal(c.ib_port_live as nat) + ",\"ib_port_paper\":"@ + decimal(c.ib_port_paper as nat) + "}}"@
}

fn push_status_part(out: &mut String, running: bool, s: &Status)
    ensures
        final(out)@ == old(out)@ + status_part(running, *s),
{
    let ghost start = out@;
    push_status_head(out, running, s);
    push_status_tail(out, s);
    proof {
        assert(out@ =~= start + status_part(running, *s));
    }
}

fn push_status_head(out: &mut String, running: bool, s: &Status)
    ensures
        final(out)@ == old(out)@ + status_head(running, *s),
{
    proof {
        reveal_strlit("{\"running\":");
        reveal_strlit(",\"connected\":");
        reveal_strlit(",\"account\":");
        reveal_strlit(",\"client_balance\":");
        reveal_strlit(",\"master_balance\":");
        reveal_strlit(",\"master_connected\":");
    }
    let ghost start = out@;
    out.append("{\"running\":");
    push_bool(out, running);
    out.append(",\"connected\":");
    push_bool(out, s.connected);
    out.append(",\"account\":");
    {
        let q = json_quote(s.account.as_str());
        out.append(q.as_str());
    }
    out.append(",\"client_balance\":");
    push_amount(out, s.client_balance);
    out.append(",\"master_balance\":");
    push_amount(out, s.master_balance);
    out.append(",\"master_connected\":");
    push_bool(out, s.master_connected);
    proof {
        assert(out@ =~= start + status_head(running, *s));
    }
}

fn push_status_tail(out: &mut String, s: &Status)
    ensures
        final(out)@ == old(out)@ + status_tail(*s),
{
    proof {
        reveal_strlit(",\"master_positions\":");
        reveal_strlit(",\"client_positions\":");
        reveal_strlit(",\"drawdown_hit\":");
        reveal_strlit(",\"last_sync\":");
        reveal_strlit(",\"orders_placed\":");
        reveal_strlit(",\"orders_closed\":");
        reveal_strlit(",\"orders_failed\":");
    }
    let ghost start = out@;
    out.append(",\"master_positions\":");
    push_decimal(out, s.master_positions as u64);
    out.append(",\"client_positions\":");
    push_decimal(out, s.client_positions as u64);
    out.append(",\"drawdown_hit\":");
    push_bool(out, s.drawdown_hit);
    out.append(",\"last_sync\":");
    {
        let q = json_quote(s.last_sync.as_str());
        out.append(q.as_str());
    }
    out.append(",\"orders_placed\":");
    push_decimal(out, s.orders_placed as u64);
    out.append(",\"orders_closed\":");
    push_decimal(out, s.orders_closed as u64);
    out.append(",\"orders_failed\":");
    push_decimal(out, s.orders_failed as u64);
    proof {
        assert(out@ =~= start + status_tail(*s));
    }
}

fn push_controls_part(out: &mut String, c: &Controls)
    ensures
        final(out)@ == old(out)@ + controls_part(*c),
{
    proof {
        reveal_strlit(",\"controls\":{\"account_mode\":\"");
        reveal_strlit("\",\"trade_mode\":\"");
        reveal_strlit("\",\"execution_mode\":\"");
        reveal_strlit("\",\"multiplier\":");
        reveal_strlit(",\"max_drawdown_pct\":");
        reveal_strlit(",\"max_position_notional\":");
        reveal_strlit(",\"max_position_qty\":");
        reveal_strlit(",\"ib_host\":");
        reveal_strlit(",\"ib_port_live\":");
        reveal_strlit(",\"ib_port_paper\":");
        reveal_strlit("}}");
    }
    let ghost start = out@;
    out.append(",\"controls\":{\"account_mode\":\"");
    out.append(account_mode_text(c.account_mode));
    out.append("\",\"trade_mode\":\"");
    out.append(trade_mode_text(c.trade_mode));
    out.append("\",\"execution_mode\":\"");
    out.append(execution_mode_text(c.execution_mode));
    out.append("\",\"multiplier\":");
    push_amount(out, c.multiplier);
    out.append(",\"max_drawdown_pct\":");
    push_amount(out, c.max_drawdown_pct);
    out.append(",\"max_position_notional\":");
    push_amount(out, c.max_position_notional);
    out.append(",\"max_position_qty\":");
    push_signed_decimal(out, c.max_position_qty);
    out.append(",\"ib_host\":");
    {
        let q = json_quote(c.ib_host.as_str());
        out.append(q.as_str());
    }
    out.append(",\"ib_port_live\":");
    push_decimal(out, c.ib_port_live as u64);
    out.append(",\"ib_port_paper\":");
    push_decimal(out, c.ib_port_paper as u64);
    out.append("}}");
    proof {
        assert(out@ =~= start + controls_part(*c));
    }
}

/// The `/state` document: engine status and controls as JSON.
pub fn state_json(running: bool, s: &Status, c: &Controls) -> (r: String)
    ensures
        r@ == status_part(running, *s) + controls_part(*c),
{
    let mut out = String::new();
    push_status_part(&mut out, running, s);
    push_controls_part(&mut out, c);
    proof {
        assert(out@ =~= status_part(running, *s) + controls_part(*c));
    }
    out
}

/// The level name a log line is served with.
pub open spec fn level_text(l: LogLevel) -> Seq<char> {
    match l {
        LogLevel::Success => "OK"@,
        LogLevel::Warn => "WARN"@,
        LogLevel::Error => "ERR"@,
        LogLevel::Info => "INFO"@,
        LogLevel::Buy => "BUY"@,
        LogLevel::Sell => "SELL"@,
    }
}

fn level_name(l: LogLevel) -> (r: &'static str)
    ensures
        r@ == level_text(l),
{
    proof {
        reveal_strlit("OK");
        reveal_strlit("WARN");
        reveal_strlit("ERR");
        reveal_strlit("INFO");
        reveal_strlit("BUY");
        reveal_strlit("SELL");
    }
    match l {
        LogLevel::Success => "OK",
        LogLevel::Warn => "WARN",
        LogLevel::Error => "ERR",
        LogLevel::Info => "INFO",
        LogLevel::Buy => "BUY",
        LogLevel::Sell => "SELL",
    }
}

/// One log line as a JSON object.
pub open spec fn line_json(l: LogLineView) -> Seq<char> {
    "{\"ts\":"@ + json_string(l.ts) + ",\"level\":\""@ + level_text(l.level) + "\",\"msg\":"@
        + json_string(l.msg) + "}"@
}

/// Log lines as the elements of a JSON array, comma-separated.
pub open spec fn lines_json(ls: Seq<LogLineView>) -> Seq<char>
    decreases ls.len(),
{
    if ls.len() == 0 {
        Seq::empty()
    } else if ls.len() == 1 {
        line_json(ls[0])
    } else {
        lines_json(ls.drop_last()) + ","@ + line_json(ls.last())
    }
}

/// The `/log` document: the retained log lines, oldest first, as a JSON array.
pub fn log_json(lines: &[LogLine]) -> (r: String)
    ensures
        r@ == "["@ + lines_json(lines@.map_values(|l: LogLine| l@)) + "]"@,
{
    proof {
        reveal_strlit("[");
        reveal_strlit("]");
        reveal_strlit(",");
        reveal_strlit("{\"ts\":");
        reveal_strlit(",\"level\":\"");
        reveal_strlit("\",\"msg\":");
        reveal_strlit("}");
    }
    let ghost views = lines@.map_values(|l: LogLine| l@);
    let mut out = "[".to_string();
    let mut i: usize = 0;
    proof {
        assert(views.take(0) =~= Seq::<LogLineView>::empty());
    }
    while i < lines.len()
        invariant
            i <= lines@.len(),
            views == lines@.map_values(|l: LogLine| l@),
            out@ == "["@ + lines_json(views.take(i as int)),
        decreases lines.len() - i,
    {
        let ghost prev = out@;
        if i > 0 {
            out.append(",");
        }
        out.append("{\"ts\":");
        let ts = json_quote(lines[i].ts.as_str());
        out.append(ts.as_str());
        out.append(",\"level\":\"");
        out.append(level_name(lines[i].level));
        out.append("\",\"msg\":");
        let msg = json_quote(lines[i].msg.as_str());
        out.append(msg.as_str());
        out.append("}");
        proof {
            let next = views.take(i + 1);
            assert(next.drop_last() =~= views.take(i as int));
            assert(next.last() == lines@[i as int]@);
            if i == 0 {
                assert(out@ =~= "["@ + line_json(next[0]));
            } else {
                assert(out@ =~= "["@ + (lines_json(views.take(i as int)) + ","@ + line_json(next.last())));
            }
        }
        i = i + 1;
    }
    out.append("]");
    proof {
        assert(views.take(i as int) =~= views);
    }
    out
}

} // verus!
