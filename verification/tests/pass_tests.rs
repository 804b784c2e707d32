use pax_americana::model::{OrderKind, Position, Side, WorkingOrder, PRICE_SCALE};
use pax_americana::orders::{diff_working_orders, effective_positions};
use pax_americana::reconcile::{reconcile, IntentReason, ReconcileInput};
use pax_americana::sizing::{target_net_qty, SizingParams};

fn usd(whole: i64) -> i64 {
    whole * PRICE_SCALE
}

fn equal_balances() -> SizingParams {
    SizingParams { master_balance: usd(100_000), client_balance: usd(100_000), ..Default::default() }
}

fn limit(symbol: &str, side: Side, qty: i64, is_entry: bool) -> WorkingOrder {
    WorkingOrder {
        symbol: symbol.into(),
        currency: "USD".into(),
        exchange: "SMART".into(),
        side,
        quantity: qty,
        kind: OrderKind::Limit,
        limit_price: usd(100),
        aux_price: 0,
        is_entry,
    }
}

#[test]
fn whole_pass_is_in_symbol_order_and_idempotent() {
    let master = vec![Position::new("MSFT", -20), Position::new("AAPL", 10), Position::new("NVDA", 5)];
    let client = vec![Position::new("TSLA", 7), Position::new("MSFT", 30), Position::new("NVDA", 5)];
    let mut input = ReconcileInput::new(&master, &client);
    input.sizing = equal_balances();
    let r = reconcile(&input);
    assert!(!r.blocked);
    let got: Vec<(&str, Side, i64, IntentReason)> =
        r.intents.iter().map(|i| (i.symbol.as_str(), i.side, i.qty, i.reason)).collect();
    assert_eq!(
        got,
        vec![
            ("AAPL", Side::Buy, 10, IntentReason::OpenMissing),
            ("MSFT", Side::Sell, 30, IntentReason::FlattenLeg),
            ("MSFT", Side::Sell, 20, IntentReason::OpenLeg),
            ("TSLA", Side::Sell, 7, IntentReason::CloseOrphan),
        ]
    );
    assert!(r.intents.iter().filter(|i| i.reason == IntentReason::FlattenLeg).all(|i| i.kind == OrderKind::Market));

    // The book the pass leads to reconciles to nothing.
    let after = vec![Position::new("AAPL", 10), Position::new("MSFT", -20), Position::new("NVDA", 5)];
    let mut again = ReconcileInput::new(&master, &after);
    again.sizing = equal_balances();
    let r2 = reconcile(&again);
    assert!(!r2.blocked);
    assert!(r2.intents.is_empty());
}

#[test]
fn target_follows_sign_and_caps() {
    let mut p = equal_balances();
    assert_eq!(target_net_qty(-37, usd(50), &p), Some(-37));
    assert_eq!(target_net_qty(0, usd(50), &p), Some(0));
    p.max_position_qty = 25;
    assert_eq!(target_net_qty(-37, usd(50), &p), Some(-25));
    p.max_position_notional = usd(1_000);
    assert_eq!(target_net_qty(-37, usd(50), &p), Some(-20));
    let small = SizingParams { client_balance: usd(1_000), ..equal_balances() };
    assert_eq!(target_net_qty(3, usd(50), &small), Some(1));
    assert_eq!(target_net_qty(-3, usd(50), &small), Some(-1));
}

#[test]
fn diff_counts_balance() {
    let desired = vec![
        limit("AAPL", Side::Buy, 10, true),
        limit("MSFT", Side::Buy, 5, true),
        limit("NVDA", Side::Sell, 3, false),
    ];
    let current = vec![
        limit("TSLA", Side::Buy, 1, true),
        limit("MSFT", Side::Buy, 5, true),
        limit("AMD", Side::Sell, 2, false),
    ];
    let d = diff_working_orders(&desired, &current);
    let placed: Vec<&str> = d.to_place.iter().map(|w| w.symbol.as_str()).collect();
    assert_eq!(placed, vec!["AAPL", "NVDA"]);
    assert_eq!(d.to_cancel.len(), 2);
    assert_eq!(desired.len() - d.to_place.len(), current.len() - d.to_cancel.len());
    assert_eq!(d.to_cancel[0], current[0].key());
    assert_eq!(d.to_cancel[1], current[2].key());
}

#[test]
fn effective_positions_sorted_and_exact() {
    let positions = vec![Position::new("MSFT", 100), Position::new("AAPL", 10)];
    let working = vec![
        limit("MSFT", Side::Sell, 100, false),
        limit("AAPL", Side::Sell, 10, true),
        limit("AMD", Side::Buy, 7, true),
    ];
    let e = effective_positions(&positions, &working);
    let got: Vec<(&str, i64)> = e.iter().map(|p| (p.symbol.as_str(), p.net_qty)).collect();
    assert_eq!(got, vec![("AMD", 7), ("MSFT", 100)]);
}
