use pax_americana::client_state::{LogLevel, LogLine};
use pax_americana::config::mode_from_lower;
use pax_americana::master_state::IbMode;
use pax_americana::cooldown::{Backoffs, Cooldowns};
use pax_americana::engine::{cycle_gate, CycleDecision, FeedCheck};
use pax_americana::model::{kind_of_upper, OrderKind, Side};
use pax_americana::panel::log_json;
use pax_americana::statement::{statement_from_nodes, statement_records, XmlNode};
use pax_americana::update::lower_name_matches;

#[test]
fn cooldown_spaces_orders_per_symbol() {
    let mut c = Cooldowns::new();
    assert!(!c.cooling_down("AAPL", 1_000, 10_000));
    c.record("AAPL", 1_000);
    assert_eq!(c.last("AAPL"), Some(1_000));
    assert!(c.cooling_down("AAPL", 10_999, 10_000));
    assert!(!c.cooling_down("AAPL", 11_000, 10_000));
    assert!(!c.cooling_down("MSFT", 1_500, 10_000));
    // A clock set back still counts as cooling down.
    assert!(c.cooling_down("AAPL", 500, 10_000));
    c.record("AAPL", 20_000);
    assert!(c.cooling_down("AAPL", 25_000, 10_000));
    assert_eq!(c.last("MSFT"), None);
}

#[test]
fn reject_backoff_is_per_symbol_and_side() {
    let mut b = Backoffs::new();
    b.record_reject("TSLA", Side::Buy, 0);
    assert!(b.backing_off("TSLA", Side::Buy, 59_999, 60_000));
    assert!(!b.backing_off("TSLA", Side::Buy, 60_000, 60_000));
    assert!(!b.backing_off("TSLA", Side::Sell, 1, 60_000));
    assert!(!b.backing_off("NVDA", Side::Buy, 1, 60_000));
}

#[test]
fn cycle_gate_order() {
    assert_eq!(cycle_gate(true, true, FeedCheck::Ready, false, true), CycleDecision::HoldDrawdown);
    assert_eq!(cycle_gate(true, false, FeedCheck::NotFetched, false, true), CycleDecision::HoldHalted);
    assert_eq!(cycle_gate(false, false, FeedCheck::NotFetched, true, false), CycleDecision::Fetch);
    assert_eq!(cycle_gate(false, false, FeedCheck::Unavailable, false, true), CycleDecision::SkipUnavailable);
    assert_eq!(cycle_gate(false, false, FeedCheck::Partial, false, true), CycleDecision::SkipPartial);
    assert_eq!(cycle_gate(false, false, FeedCheck::OutOfRange, false, true), CycleDecision::SkipOutOfRange);
    assert_eq!(cycle_gate(false, false, FeedCheck::Ready, true, false), CycleDecision::HoldOffHours);
    assert_eq!(cycle_gate(false, false, FeedCheck::Ready, false, false), CycleDecision::Trade);
    assert_eq!(cycle_gate(false, false, FeedCheck::Ready, true, true), CycleDecision::Trade);
}

#[test]
fn mapped_strings_decide() {
    assert_eq!(kind_of_upper("LMT"), OrderKind::Limit);
    assert_eq!(kind_of_upper("STPLMT"), OrderKind::StopLimit);
    assert_eq!(kind_of_upper("lmt"), OrderKind::Market);
    assert_eq!(mode_from_lower("live"), IbMode::Live);
    assert_eq!(mode_from_lower("LIVE"), IbMode::Paper);
    assert_eq!(mode_from_lower("paper"), IbMode::Paper);
    assert!(lower_name_matches("pax-client-2.1.exe", "pax-client"));
    assert!(!lower_name_matches("pax-client-2.1.zip", "pax-client"));
    assert!(!lower_name_matches("pax-master.exe", "pax-client"));
}

#[test]
fn json_controls_use_lowercase_hex() {
    let line = LogLine { ts: "\u{1}".to_string(), level: LogLevel::Warn, msg: "\t\r\u{8}\u{c}\u{1f}é".to_string() };
    assert_eq!(
        log_json(&[line]),
        "[{\"ts\":\"\\u0001\",\"level\":\"WARN\",\"msg\":\"\\t\\r\\b\\f\\u001fé\"}]"
    );
}

fn node(tag: &str, attrs: &[(&str, &str)]) -> XmlNode {
    XmlNode {
        is_element: true,
        tag: tag.to_string(),
        attrs: attrs.iter().map(|(k, v)| (k.to_string(), v.to_string())).collect(),
    }
}

#[test]
fn statement_records_from_nodes() {
    let nodes = vec![
        node("Trade", &[("dateTime", "20240305;10:00:00"), ("symbol", "AAPL"), ("buySell", "SELL"), ("quantity", "-10"), ("tradePrice", "101.5")]),
        node("Trade", &[("dateTime", "20240301;10:00:00"), ("symbol", "AAPL"), ("buySell", "BUY"), ("quantity", "10"), ("tradePrice", "100")]),
        node("EquitySummaryByReportDateInBase", &[("reportDate", "20240302"), ("total", "1000")]),
        node("EquitySummaryByReportDateInBase", &[("reportDate", "20240301"), ("total", "900")]),
    ];
    let (t, n, c) = statement_records(&nodes);
    assert_eq!(t.len(), 2);
    assert_eq!(t[0].side, "SELL");
    assert_eq!(n.len(), 2);
    assert!(c.is_empty());
    let (t2, n2, _) = statement_from_nodes(&nodes);
    assert_eq!(t2[0].side, "BUY");
    assert_eq!(n2[0].date, "20240301");
}
