//! The master's HTTP API: which handler a request reaches, what a posted configuration
//! changes, and the JSON documents it serves.

use vstd::prelude::*;

use crate::master_state::{ConnParams, IbMode, LogLevel, LogLine, LogLineView};
use crate::protocol::{MasterSnapshot, StatusDoc, PROTOCOL_SCHEMA};
use crate::text::{decimal, push_decimal, str_eq, trim, trim_str};
use crate::web::{amount_text, bool_text, eq_ascii_nocase, eq_ignore_ascii_case, json_quote,
    json_string, push_amount, push_bool, HttpMethod};

verus! {

/// Where an API request goes.
#[derive(Debug, Clone, Copy, PartialEq, Eq, Structural)]
pub enum ApiRoute {
    /// `GET /`: the dashboard shell (no key needed; its script sends the key).
    Dashboard,
    /// A key is set and the request did not present it.
    Unauthorized,
    /// `POST /config`: the only mutating endpoint.
    ConfigUpdate,
    /// Any other non-GET request.
    MethodNotAllowed,
    /// `GET /snapshot` or `GET /positions`.
    Snapshot,
    /// `GET /balance`.
    Balance,
    /// `GET /config`.
    Config,
    /// `GET /log`.
    Log,
    /// `GET /status`.
    Status,
    NotFound,
}

pub open spec fn api_route_spec(method: HttpMethod, path: Seq<char>, key: Seq<char>, provided: Seq<char>) -> ApiRoute {
    if path == "/"@ && method == HttpMethod::Get {
        ApiRoute::Dashboard
    } else if key.len() > 0 && provided != key {
        ApiRoute::Unauthorized
    } else if path == "/config"@ && method == HttpMethod::Post {
        ApiRoute::ConfigUpdate
    } else if method != HttpMethod::Get {
        ApiRoute::MethodNotAllowed
    } else if path == "/snapshot"@ || path == "/positions"@ {
        ApiRoute::Snapshot
    } else if path == "/balance"@ {
        ApiRoute::Balance
    } else if path == "/config"@ {
        ApiRoute::Config
    } else if path == "/log"@ {
        ApiRoute::Log
    } else if path == "/status"@ {
        ApiRoute::Status
    } else {
        ApiRoute::NotFound
    }
}

/// Route an API request: its method, path, the configured key and the `X-API-Key`
/// header it presented (empty when absent).
pub fn api_route(method: HttpMethod, path: &str, key: &str, provided: &str) -> (r: ApiRoute)
    ensures
        r == api_route_spec(method, path@, key@, provided@),
{
    if method == HttpMethod::Get && str_eq(path, "/") {
        return ApiRoute::Dashboard;
    }
    if key.unicode_len() > 0 && !str_eq(provided, key) {
        return ApiRoute::Unauthorized;
    }
    if method == HttpMethod::Post && str_eq(path, "/config") {
        return ApiRoute::ConfigUpdate;
    }
    if method != HttpMethod::Get {
        return ApiRoute::MethodNotAllowed;
    }
    if str_eq(path, "/snapshot") || str_eq(path, "/positions") {
        ApiRoute::Snapshot
    } else if str_eq(path, "/balance") {
        ApiRoute::Balance
    } else if str_eq(path, "/config") {
        ApiRoute::Config
    } else if str_eq(path, "/log") {
        ApiRoute::Log
    } else if str_eq(path, "/status") {
        ApiRoute::Status
    } else {
        ApiRoute::NotFound
    }
}

/// With a key set, a request without it reaches nothing but the dashboard shell.
pub proof fn law_api_requires_key(method: HttpMethod, path: Seq<char>, key: Seq<char>, provided: Seq<char>)
    requires
        key.len() > 0,
        provided != key,
    ensures
        api_route_spec(method, path, key, provided) == ApiRoute::Dashboard
            || api_route_spec(method, path, key, provided) == ApiRoute::Unauthorized,
{
}

/// A `/config` body: each present field replaces the connection parameter.
#[derive(Debug)]
pub struct ConfigUpdate {
    pub host: Option<String>,
    pub port_live: Option<u16>,
    pub port_paper: Option<u16>,
    pub mode: Option<String>,
}

/// Apply a posted configuration: a host only when it is not blank (trimmed), ports as
/// given, and the mode `live` (in any ASCII case) or else paper.
pub fn apply_config_update(conn: &mut ConnParams, upd: ConfigUpdate)
    ensures
        final(conn).host@ == (match upd.host {
            Some(h) => if trim(h@).len() > 0 {
                trim(h@)
            } else {
                old(conn).host@
            },
            None => old(conn).host@,
        }),
        final(conn).port_live == (match upd.port_live {
            Some(p) => p,
            None => old(conn).port_live,
        }),
        final(conn).port_paper == (match upd.port_paper {
            Some(p) => p,
            None => old(conn).port_paper,
        }),
        final(conn).mode == (match upd.mode {
            Some(m) => if eq_ascii_nocase(m@, "live"@) {
                IbMode::Live
            } else {
                IbMode::Paper
            },
            None => old(conn).mode,
        }),
{
    if let Some(h) = &upd.host {
        let t = trim_str(h.as_str());
        if t.unicode_len() > 0 {
            conn.host = t.to_string();
        }
    }
    if let Some(p) = upd.port_live {
        conn.port_live = p;
    }
    if let Some(p) = upd.port_paper {
        conn.port_paper = p;
    }
    if let Some(m) = &upd.mode {
        conn.mode = if eq_ignore_ascii_case(m.as_str(), "live") {
            IbMode::Live
        } else {
            IbMode::Paper
        };
    }
}

/// The `/balance` document.
pub open spec fn balance_doc(balance: int, connected: bool) -> Seq<char> {
    "{\"balance\":"@ + amount_text(balance) + ",\"connected\":"@ + bool_text(connected) + "}"@
}

/// The `/balance` document of a snapshot.
pub fn balance_json(snap: &MasterSnapshot) -> (r: String)
    ensures
        r@ == balance_doc(snap.balance as int, snap.connected),
{
    proof {
        reveal_strlit("{\"balance\":");
        reveal_strlit(",\"connected\":");
        reveal_strlit("}");
    }
    let mut out = "{\"balance\":".to_string();
    push_amount(&mut out, snap.balance);
    out.append(",\"connected\":");
    push_bool(&mut out, snap.connected);
    out.append("}");
    out
}

pub open spec fn mode_text(m: IbMode) -> Seq<char> {
    match m {
        IbMode::Live => "live"@,
        IbMode::Paper => "paper"@,
    }
}

/// The `/config` document (the host is written as it is, unescaped).
pub open spec fn config_doc(c: ConnParams) -> Seq<char> {
    "{\"host\":\""@ + c.host@ + "\",\"port_live\":"@ + decimal(c.port_live as nat) + ",\"port_paper\":"@
        + decimal(c.port_paper as nat) + ",\"mode\":\""@ + mode_text(c.mode) + "\"}"@
}

/// The `/config` document of the connection parameters.
pub fn config_json(c: &ConnParams) -> (r: String)
    ensures
        r@ == config_doc(*c),
{
    proof {
        reveal_strlit("{\"host\":\"");
        reveal_strlit("\",\"port_live\":");
        reveal_strlit(",\"port_paper\":");
        reveal_strlit(",\"mode\":\"");
        reveal_strlit("\"}");
        reveal_strlit("live");
        reveal_strlit("paper");
    }
    let mut out = "{\"host\":\"".to_string();
    out.append(c.host.as_str());
    out.append("\",\"port_live\":");
    push_decimal(&mut out, c.port_live as u64);
    out.append(",\"port_paper\":");
    push_decimal(&mut out, c.port_paper as u64);
    out.append(",\"mode\":\"");
    match c.mode {
        IbMode::Live => out.append("live"),
        IbMode::Paper => out.append("paper"),
    }
    out.append("\"}");
    proof {
        assert(out@ =~= config_doc(*c));
    }
    out
}

/// The `/status` document of a snapshot.
pub fn status_doc(snap: &MasterSnapshot) -> (r: StatusDoc)
    ensures
        r.status@ == "running"@,
        r.connected == snap.connected,
        r.balance == snap.balance,
        r.total_positions == snap.positions@.len(),
        r.schema == PROTOCOL_SCHEMA,
{
    proof {
        reveal_strlit("running");
    }
    StatusDoc {
        status: "running".to_string(),
        connected: snap.connected,
        balance: snap.balance,
        total_positions: snap.positions.len(),
        schema: PROTOCOL_SCHEMA,
    }
}

/// The level name a log line is served with.
pub open spec fn level_text(l: LogLevel) -> Seq<char> {
    match l {
        LogLevel::Success => "OK"@,
        LogLevel::Warn => "WARN"@,
        LogLevel::Error => "ERR"@,
        LogLevel::Info => "INFO"@,
    }
}

fn level_name(l: LogLevel) -> (r: &'static str)
    ensures
        r@ == level_text(l),
{
    proof {
        reveal_strlit("OK");
        reveal_strlit("WARN");
        reveal_strlit("ERR");
        reveal_strlit("INFO");
    }
    match l {
        LogLevel::Success => "OK",
        LogLevel::Warn => "WARN",
        LogLevel::Error => "ERR",
        LogLevel::Info => "INFO",
    }
}

/// One log line as a JSON object.
pub open spec fn line_json(l: LogLineView) -> Seq<char> {
    "{\"ts\":"@ + json_string(l.ts) + ",\"level\":\""@ + level_text(l.level) + "\",\"msg\":"@
        + json_string(l.msg) + "}"@
}

/// Log lines as the elements of a JSON array, comma-separated.
pub open spec fn lines_json(ls: Seq<LogLineView>) -> Seq<char>
    decreases ls.len(),
{
    if ls.len() == 0 {
        Seq::empty()
    } else if ls.len() == 1 {
        line_json(ls[0])
    } else {
        lines_json(ls.drop_last()) + ","@ + line_json(ls.last())
    }
}

/// The `/log` document: the retained log lines, oldest first, as a JSON array.
pub fn log_json(lines: &[LogLine]) -> (r: String)
    ensures
        r@ == "["@ + lines_json(lines@.map_values(|l: LogLine| l@)) + "]"@,
{
    proof {
        reveal_strlit("[");
        reveal_strlit("]");
        reveal_strlit(",");
        reveal_strlit("{\"ts\":");
        reveal_strlit(",\"level\":\"");
        reveal_strlit("\",\"msg\":");
        reveal_strlit("}");
    }
    let ghost views = lines@.map_values(|l: LogLine| l@);
    let mut out = "[".to_string();
    let mut i: usize = 0;
    proof {
        assert(views.take(0) =~= Seq::<LogLineView>::empty());
    }
    while i < lines.len()
        invariant
            i <= lines@.len(),
            views == lines@.map_values(|l: LogLine| l@),
            out@ == "["@ + lines_json(views.take(i as int)),
        decreases lines.len() - i,
    {
        if i > 0 {
            out.append(",");
        }
        out.append("{\"ts\":");
        let ts = json_quote(lines[i].ts.as_str());
        out.append(ts.as_str());
        out.append(",\"level\":\"");
        out.append(level_name(lines[i].level));
        out.append("\",\"msg\":");
        let msg = json_quote(lines[i].msg.as_str());
        out.append(msg.as_str());
        out.append("}");
        proof {
            let next = views.take(i + 1);
            assert(next.drop_last() =~= views.take(i as int));
            assert(next.last() == lines@[i as int]@);
            if i == 0 {
                assert(out@ =~= "["@ + line_json(next[0]));
            } else {
                assert(out@ =~= "["@ + (lines_json(views.take(i as int)) + ","@ + line_json(next.last())));
            }
        }
        i = i + 1;
    }
    out.append("]");
    proof {
        assert(views.take(i as int) =~= views);
    }
    out
}

} // verus!
