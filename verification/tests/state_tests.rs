use pax_americana::client_state::{ExecutionMode, TradeMode};
use pax_americana::persist::{apply_saved, saved_settings};
use pax_americana::persist::{resume_ledger, Ledger};
use pax_americana::client_state::{
    close_all_request, AccountMode, Controls, LogBuffer, LogLevel, Status, CLIENT_LOG_CAP,
};
use pax_americana::clock::hms_string;
use pax_americana::config::{client_id_from_host, stable_client_id, ClientConfig, MasterConfig};
use pax_americana::master_state::{self, ConnParams, IbMode, MASTER_LOG_CAP};
use pax_americana::model::PRICE_SCALE;
use pax_americana::numparse::{parse_int, parse_uint};

fn some(s: &str) -> Option<String> {
    Some(s.to_string())
}

#[test]
fn client_log_keeps_the_newest_lines() {
    let mut log = LogBuffer::default();
    for i in 0..(CLIENT_LOG_CAP + 5) {
        log.push_at(LogLevel::Info, &format!("line {}", i), "12:00:00".to_string());
    }
    let lines = log.lines();
    assert_eq!(lines.len(), CLIENT_LOG_CAP);
    assert_eq!(lines[0].msg, "line 5");
    assert_eq!(lines[CLIENT_LOG_CAP - 1].msg, format!("line {}", CLIENT_LOG_CAP + 4));
    assert_eq!(lines[0].ts, "12:00:00");
}

#[test]
fn client_log_push_stamps_a_clock_time() {
    let mut log = LogBuffer::default();
    log.push(LogLevel::Buy, "bought");
    let lines = log.lines();
    assert_eq!(lines.len(), 1);
    assert_eq!(lines[0].level, LogLevel::Buy);
    assert_eq!(lines[0].msg, "bought");
    let ts = lines[0].ts.as_bytes();
    assert_eq!(ts.len(), 8);
    assert_eq!(ts[2], b':');
    assert_eq!(ts[5], b':');
}

#[test]
fn master_log_keeps_the_newest_lines() {
    let mut log = master_state::LogBuffer::default();
    for i in 0..(MASTER_LOG_CAP + 2) {
        log.push_at(master_state::LogLevel::Warn, &format!("m{}", i), "00:00:01".to_string());
    }
    let lines = log.lines();
    assert_eq!(lines.len(), MASTER_LOG_CAP);
    assert_eq!(lines[0].msg, "m2");
    assert_eq!(lines[MASTER_LOG_CAP - 1].msg, format!("m{}", MASTER_LOG_CAP + 1));
}

#[test]
fn hms_renders_utc_wall_clock() {
    assert_eq!(hms_string(0), "00:00:00");
    assert_eq!(hms_string(3 * 3600 + 4 * 60 + 5), "03:04:05");
    // Days wrap: one day plus 23:59:59.
    assert_eq!(hms_string(86_400 + 86_399), "23:59:59");
}

#[test]
fn controls_defaults_and_port() {
    let mut c = Controls::default();
    assert_eq!(c.multiplier, PRICE_SCALE);
    assert_eq!(c.max_drawdown_pct, 10 * PRICE_SCALE);
    assert_eq!(c.ib_host, "127.0.0.1");
    assert_eq!(c.master_url, "http://148.113.203.188:5001");
    assert!(!c.rth_only);
    assert_eq!(c.port(), 4001);
    c.account_mode = AccountMode::Paper;
    assert_eq!(c.port(), 4002);
    let d = c.clone();
    assert_eq!(d.account_mode, AccountMode::Paper);
}

#[test]
fn status_start_resets_counters_only() {
    let mut s = Status::default();
    s.count_order(true);
    s.count_order(false);
    s.count_order(false);
    assert_eq!(s.orders_closed, 1);
    assert_eq!(s.orders_placed, 2);
    s.orders_failed = 3;
    s.drawdown_hit = true;
    s.connected = true;
    s.halted = true;
    s.reset_for_start();
    assert_eq!((s.orders_placed, s.orders_closed, s.orders_failed), (0, 0, 0));
    assert!(!s.drawdown_hit);
    assert!(s.connected);
    assert!(s.halted);
}

#[test]
fn close_all_needs_a_running_engine() {
    assert_eq!(close_all_request(true), (true, LogLevel::Warn, "CLOSE ALL requested."));
    assert_eq!(close_all_request(false), (false, LogLevel::Warn, "Press START before using CLOSE ALL."));
}

#[test]
fn conn_params_endpoint() {
    let mut p = ConnParams { host: "10.0.0.5".to_string(), port_live: 7496, port_paper: 7497, mode: IbMode::Paper };
    assert_eq!(p.port(), 7497);
    assert_eq!(p.endpoint(), "10.0.0.5:7497");
    p.mode = IbMode::Live;
    assert_eq!(p.endpoint(), "10.0.0.5:7496");
}

#[test]
fn client_config_from_values() {
    let d = ClientConfig::from_values(None, None, None, None, None, None, None);
    assert_eq!(d.master_url, "http://127.0.0.1:5001");
    assert_eq!(d.master_api_key, "");
    assert_eq!(d.ib_host, "127.0.0.1");
    assert_eq!((d.ib_port_live, d.ib_port_paper, d.sync_interval_secs, d.order_cooldown_secs), (4001, 4002, 2, 10));

    let c = ClientConfig::from_values(
        some("http://m:9"),
        some("k1"),
        some("gw"),
        some("7000"),
        some("not a port"),
        some("70000"),
        some("+3"),
    );
    assert_eq!(c.master_url, "http://m:9");
    assert_eq!(c.master_api_key, "k1");
    assert_eq!(c.ib_host, "gw");
    assert_eq!(c.ib_port_live, 7000);
    assert_eq!(c.ib_port_paper, 4002, "an unparsable port keeps the default");
    assert_eq!(c.sync_interval_secs, 70000);
    assert_eq!(c.order_cooldown_secs, 3);
}

#[test]
fn master_config_from_values() {
    let d = MasterConfig::from_values(None, None, None, None, None, None, None, None, None);
    assert_eq!((d.ib_port_live, d.ib_port_paper), (7496, 7497));
    assert_eq!(d.start_mode, IbMode::Paper);
    assert_eq!(d.ib_client_id, 0);
    assert_eq!(d.http_bind, "0.0.0.0:5001");
    assert_eq!(d.refresh_secs, 5);

    // The legacy single port stands behind the paper port.
    let l = MasterConfig::from_values(None, None, None, some("4002"), some("LIVE"), some("-7"), None, some("key"), some("9"));
    assert_eq!(l.ib_port_paper, 4002);
    assert_eq!(l.start_mode, IbMode::Live);
    assert_eq!(l.ib_client_id, -7);
    assert_eq!(l.api_key, "key");
    assert_eq!(l.refresh_secs, 9);

    let p = MasterConfig::from_values(None, some("1"), some("4100"), some("4002"), some("paper"), some("x"), None, None, None);
    assert_eq!(p.ib_port_live, 1);
    assert_eq!(p.ib_port_paper, 4100);
    assert_eq!(p.start_mode, IbMode::Paper);
    assert_eq!(p.ib_client_id, 0);
}

#[test]
fn client_id_is_fnv_of_the_host() {
    assert_eq!(client_id_from_host(b"pax-client"), 287);
    assert_eq!(client_id_from_host(b"TRADER-PC"), 184);
    assert_eq!(stable_client_id(Some("TRADER-PC"), Some("box7")), 184);
    assert_eq!(stable_client_id(None, Some("box7")), 926);
    assert_eq!(stable_client_id(None, None), 287);
}

#[test]
fn client_ids_stay_in_range() {
    for host in ["", "a", "TRADER-PC", "some.very.long.host.name.example"] {
        let id = client_id_from_host(host.as_bytes());
        assert!((21..=998).contains(&id));
    }
}

#[test]
fn numbers_parse_like_str_parse() {
    assert_eq!(parse_uint("4001", 65535), Some(4001));
    assert_eq!(parse_uint("+12", 65535), Some(12));
    assert_eq!(parse_uint("65536", 65535), None);
    assert_eq!(parse_uint("", 65535), None);
    assert_eq!(parse_uint("-1", 65535), None);
    assert_eq!(parse_uint(" 1", 65535), None);
    assert_eq!(parse_int("-2147483648", i32::MIN as i64, i32::MAX as i64), Some(-2147483648));
    assert_eq!(parse_int("2147483648", i32::MIN as i64, i32::MAX as i64), None);
    assert_eq!(parse_int("-", i32::MIN as i64, i32::MAX as i64), None);
    assert_eq!(parse_int("+0", i32::MIN as i64, i32::MAX as i64), Some(0));
}

#[test]
fn saved_settings_restore_the_controls() {
    let mut c = Controls::default();
    c.account_mode = AccountMode::Paper;
    c.trade_mode = TradeMode::LongOnly;
    c.execution_mode = ExecutionMode::NewOnly;
    c.multiplier = 25_000;
    c.ib_account = "U7".to_string();
    c.rth_only = true;
    c.max_position_qty = 5;
    let saved = saved_settings(&c);
    let mut other = Controls::default();
    other.max_position_qty = 9;
    other.master_url = "http://m".to_string();
    apply_saved(&mut other, saved);
    assert_eq!(other.account_mode, AccountMode::Paper);
    assert_eq!(other.trade_mode, TradeMode::LongOnly);
    assert_eq!(other.execution_mode, ExecutionMode::NewOnly);
    assert_eq!(other.multiplier, 25_000);
    assert_eq!(other.ib_account, "U7");
    assert!(other.rth_only);
    assert_eq!(other.max_position_qty, 9, "position caps are not saved settings");
    assert_eq!(other.master_url, "http://m");
}

#[test]
fn ledger_resumes_only_for_its_account() {
    let ledger = || Ledger {
        account: "U1".to_string(),
        seen_master_net: vec![("AAPL".to_string(), 100)],
        targets: vec![("AAPL".to_string(), 50)],
        wo_fingerprint: None,
        desired: Vec::new(),
        peak_balance: 0,
    };
    let r = resume_ledger("U1", Some(ledger())).expect("same account");
    assert_eq!(r.targets, vec![("AAPL".to_string(), 50)]);
    assert!(resume_ledger("U2", Some(ledger())).is_none());
    assert!(resume_ledger("U1", None).is_none());
}
