use pax_americana::client_state::{AccountMode, Controls, ExecutionMode, LogLevel, LogLine, Status, TradeMode};
use pax_americana::master_state::{self, ConnParams, IbMode};
use pax_americana::model::{Position, PRICE_SCALE};
use pax_americana::panel::{apply_settings, control_action, log_json, panel_route, state_json, ControlAction, PanelRoute, SettingsUpdate};
use pax_americana::protocol::{MasterSnapshot, PROTOCOL_SCHEMA};
use pax_americana::server::{self, api_route, apply_config_update, balance_json, config_json, status_doc, ApiRoute, ConfigUpdate};
use pax_americana::web::{eq_ignore_ascii_case, push_amount, push_bool, request_path, HttpMethod};

fn amount(v: i64) -> String {
    let mut s = String::new();
    push_amount(&mut s, v);
    s
}

fn no_settings() -> SettingsUpdate {
    SettingsUpdate {
        account_mode: None,
        trade_mode: None,
        execution_mode: None,
        multiplier: None,
        max_drawdown_pct: None,
        max_position_notional: None,
        max_position_qty: None,
        ib_host: None,
        ib_port_live: None,
        ib_port_paper: None,
    }
}

#[test]
fn request_path_drops_the_query() {
    assert_eq!(request_path("/state?x=1&y=2"), "/state");
    assert_eq!(request_path("/log"), "/log");
    assert_eq!(request_path("?only"), "");
}

#[test]
fn ascii_case_comparison() {
    assert!(eq_ignore_ascii_case("LiVe", "live"));
    assert!(!eq_ignore_ascii_case("lives", "live"));
    assert!(!eq_ignore_ascii_case("Ä", "ä"));
}

#[test]
fn json_strings_are_escaped_like_serde() {
    let line = LogLine { ts: "t\\1".to_string(), level: LogLevel::Info, msg: "a\"b\nc".to_string() };
    assert_eq!(log_json(&[line]), "[{\"ts\":\"t\\\\1\",\"level\":\"INFO\",\"msg\":\"a\\\"b\\nc\"}]");
}

#[test]
fn amounts_print_like_floats() {
    assert_eq!(amount(0), "0");
    assert_eq!(amount(PRICE_SCALE), "1");
    assert_eq!(amount(12_345_000), "1234.5");
    assert_eq!(amount(-2_500), "-0.25");
    assert_eq!(amount(10_001), "1.0001");
    let mut s = String::from("x=");
    push_bool(&mut s, true);
    assert_eq!(s, "x=true");
}

#[test]
fn panel_routing() {
    assert_eq!(panel_route(HttpMethod::Get, "/", "k", ""), PanelRoute::Dashboard);
    assert_eq!(panel_route(HttpMethod::Get, "/state", "k", "wrong"), PanelRoute::Unauthorized);
    assert_eq!(panel_route(HttpMethod::Get, "/state", "k", "k"), PanelRoute::State);
    assert_eq!(panel_route(HttpMethod::Get, "/log", "", ""), PanelRoute::Log);
    assert_eq!(panel_route(HttpMethod::Post, "/control", "", ""), PanelRoute::Control);
    assert_eq!(panel_route(HttpMethod::Post, "/settings", "k", "k"), PanelRoute::Settings);
    assert_eq!(panel_route(HttpMethod::Post, "/state", "", ""), PanelRoute::MethodNotAllowed);
    assert_eq!(panel_route(HttpMethod::Get, "/nope", "", ""), PanelRoute::NotFound);
}

#[test]
fn panel_without_key_reaches_only_the_shell() {
    for (m, p) in [(HttpMethod::Get, "/state"), (HttpMethod::Post, "/control"), (HttpMethod::Other, "/")] {
        assert_eq!(panel_route(m, p, "secret", ""), PanelRoute::Unauthorized);
    }
}

#[test]
fn control_actions() {
    assert_eq!(control_action("start"), Some(ControlAction::Start));
    assert_eq!(control_action("stop"), Some(ControlAction::Stop));
    assert_eq!(control_action("close_all"), Some(ControlAction::CloseAll));
    assert_eq!(control_action("reset_drawdown"), Some(ControlAction::ResetDrawdown));
    assert_eq!(control_action("START"), None);
}

#[test]
fn settings_are_clamped() {
    let mut c = Controls::default();
    let mut u = no_settings();
    u.account_mode = Some("PAPER".to_string());
    u.trade_mode = Some("Long_Only".to_string());
    u.execution_mode = Some("new".to_string());
    u.multiplier = Some(90_000);
    u.max_drawdown_pct = Some(1);
    u.max_position_notional = Some(-5);
    u.max_position_qty = Some(300);
    u.ib_host = Some("  10.0.0.9 ".to_string());
    u.ib_port_paper = Some(7497);
    apply_settings(&mut c, u);
    assert_eq!(c.account_mode, AccountMode::Paper);
    assert_eq!(c.trade_mode, TradeMode::LongOnly);
    assert_eq!(c.execution_mode, ExecutionMode::NewOnly);
    assert_eq!(c.multiplier, 5 * PRICE_SCALE);
    assert_eq!(c.max_drawdown_pct, PRICE_SCALE);
    assert_eq!(c.max_position_notional, 0);
    assert_eq!(c.max_position_qty, 300);
    assert_eq!(c.ib_host, "10.0.0.9");
    assert_eq!((c.ib_port_live, c.ib_port_paper), (4001, 7497));

    let mut blank = no_settings();
    blank.ib_host = Some("   ".to_string());
    blank.multiplier = Some(1);
    blank.account_mode = Some("Live".to_string());
    apply_settings(&mut c, blank);
    assert_eq!(c.ib_host, "10.0.0.9", "a blank host is ignored");
    assert_eq!(c.multiplier, PRICE_SCALE / 10);
    assert_eq!(c.account_mode, AccountMode::Live);
}

#[test]
fn state_document() {
    let s = Status::default();
    let c = Controls::default();
    assert_eq!(
        state_json(false, &s, &c),
        "{\"running\":false,\"connected\":false,\"account\":\"\",\"client_balance\":0,\"master_balance\":0,\
\"master_connected\":false,\"master_positions\":0,\"client_positions\":0,\"drawdown_hit\":false,\"last_sync\":\"\",\
\"orders_placed\":0,\"orders_closed\":0,\"orders_failed\":0,\"controls\":{\"account_mode\":\"live\",\
\"trade_mode\":\"long_short\",\"execution_mode\":\"existing\",\"multiplier\":1,\"max_drawdown_pct\":10,\
\"max_position_notional\":0,\"max_position_qty\":0,\"ib_host\":\"127.0.0.1\",\"ib_port_live\":4001,\"ib_port_paper\":4002}}"
    );
    let mut s2 = Status::default();
    s2.connected = true;
    s2.account = "U1".to_string();
    s2.client_balance = 25_000 * PRICE_SCALE + 5_000;
    s2.orders_placed = 7;
    let doc = state_json(true, &s2, &c);
    assert!(doc.starts_with("{\"running\":true,\"connected\":true,\"account\":\"U1\",\"client_balance\":25000.5,"));
    assert!(doc.contains("\"orders_placed\":7,"));
}

#[test]
fn log_documents() {
    assert_eq!(log_json(&[]), "[]");
    let lines = vec![
        LogLine { ts: "09:30:00".to_string(), level: LogLevel::Success, msg: "Connected".to_string() },
        LogLine { ts: "09:30:01".to_string(), level: LogLevel::Sell, msg: "say \"hi\"".to_string() },
    ];
    assert_eq!(
        log_json(&lines),
        "[{\"ts\":\"09:30:00\",\"level\":\"OK\",\"msg\":\"Connected\"},{\"ts\":\"09:30:01\",\"level\":\"SELL\",\"msg\":\"say \\\"hi\\\"\"}]"
    );
    let master_lines = vec![master_state::LogLine {
        ts: "1".to_string(),
        level: master_state::LogLevel::Error,
        msg: "x".to_string(),
    }];
    assert_eq!(server::log_json(&master_lines), "[{\"ts\":\"1\",\"level\":\"ERR\",\"msg\":\"x\"}]");
}

#[test]
fn api_routing() {
    assert_eq!(api_route(HttpMethod::Get, "/", "k", ""), ApiRoute::Dashboard);
    assert_eq!(api_route(HttpMethod::Get, "/snapshot", "k", ""), ApiRoute::Unauthorized);
    assert_eq!(api_route(HttpMethod::Get, "/snapshot", "k", "k"), ApiRoute::Snapshot);
    assert_eq!(api_route(HttpMethod::Get, "/positions", "", ""), ApiRoute::Snapshot);
    assert_eq!(api_route(HttpMethod::Get, "/balance", "", ""), ApiRoute::Balance);
    assert_eq!(api_route(HttpMethod::Get, "/config", "", ""), ApiRoute::Config);
    assert_eq!(api_route(HttpMethod::Post, "/config", "", ""), ApiRoute::ConfigUpdate);
    assert_eq!(api_route(HttpMethod::Get, "/log", "", ""), ApiRoute::Log);
    assert_eq!(api_route(HttpMethod::Get, "/status", "", ""), ApiRoute::Status);
    assert_eq!(api_route(HttpMethod::Post, "/status", "", ""), ApiRoute::MethodNotAllowed);
    assert_eq!(api_route(HttpMethod::Get, "/x", "", ""), ApiRoute::NotFound);
}

#[test]
fn config_updates_and_documents() {
    let mut conn = ConnParams { host: "127.0.0.1".to_string(), port_live: 7496, port_paper: 7497, mode: IbMode::Paper };
    apply_config_update(
        &mut conn,
        ConfigUpdate { host: Some(" gw.local ".to_string()), port_live: Some(4001), port_paper: None, mode: Some("LIVE".to_string()) },
    );
    assert_eq!(conn.host, "gw.local");
    assert_eq!((conn.port_live, conn.port_paper), (4001, 7497));
    assert_eq!(conn.mode, IbMode::Live);
    assert_eq!(config_json(&conn), "{\"host\":\"gw.local\",\"port_live\":4001,\"port_paper\":7497,\"mode\":\"live\"}");
    apply_config_update(&mut conn, ConfigUpdate { host: Some("".to_string()), port_live: None, port_paper: None, mode: Some("x".to_string()) });
    assert_eq!(conn.host, "gw.local");
    assert_eq!(conn.mode, IbMode::Paper);
}

#[test]
fn balance_and_status_documents() {
    let mut snap = MasterSnapshot::default();
    snap.balance = 100_000 * PRICE_SCALE + 1_234;
    snap.connected = true;
    snap.positions = vec![Position::new("AAPL", 10), Position::new("TSLA", -3)];
    assert_eq!(balance_json(&snap), "{\"balance\":100000.1234,\"connected\":true}");
    let st = status_doc(&snap);
    assert_eq!(st.status, "running");
    assert!(st.connected);
    assert_eq!(st.balance, snap.balance);
    assert_eq!(st.total_positions, 2);
    assert_eq!(st.schema, PROTOCOL_SCHEMA);
}
