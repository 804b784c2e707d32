use pax_americana::model::{OrderKind, Position, Side, PRICE_SCALE};
use pax_americana::reconcile::{reconcile, IntentReason, ReconcileInput};
use pax_americana::sizing::SizingParams;

fn usd(whole: i64) -> i64 {
    whole * PRICE_SCALE
}

fn equal_balances() -> SizingParams {
    SizingParams {
        master_balance: usd(100_000),
        client_balance: usd(100_000),
        ..Default::default()
    }
}

fn pos(sym: &str, qty: i64) -> Position {
    Position::new(sym, qty)
}

/// THE headline guarantee: the master closes a long by selling, going flat.
/// The client (also flat after copying) must do NOTHING — never open a short.
#[test]
fn master_closes_long_client_does_not_short() {
    let master: Vec<Position> = vec![];
    let client: Vec<Position> = vec![];
    let mut input = ReconcileInput::new(&master, &client);
    input.sizing = equal_balances();
    let r = reconcile(&input);
    assert!(r.intents.is_empty(), "must not trade when both are flat");
}

/// Master closes a long; client still holds the (now orphaned) long.
/// Client must SELL exactly its holding to reach flat — and not a share more.
#[test]
fn orphan_long_is_closed_to_flat_not_shorted() {
    let master: Vec<Position> = vec![];
    let client = vec![pos("TSLA", 400)];
    let mut input = ReconcileInput::new(&master, &client);
    input.sizing = equal_balances();
    let r = reconcile(&input);
    assert_eq!(r.intents.len(), 1);
    let i = &r.intents[0];
    assert_eq!(i.side, Side::Sell);
    assert_eq!(i.qty, 400, "sells exactly the holding — no overshoot to short");
    assert_eq!(i.reason, IntentReason::CloseOrphan);
}

/// Master holds a long, client is flat -> open it, scaled.
#[test]
fn missing_long_is_opened_scaled() {
    let master = vec![pos("AAPL", 100)];
    let client: Vec<Position> = vec![];
    let mut input = ReconcileInput::new(&master, &client);
    input.sizing = SizingParams {
        master_balance: usd(25_000),
        client_balance: usd(100_000),
        ..Default::default()
    };
    let r = reconcile(&input);
    assert_eq!(r.intents.len(), 1);
    assert_eq!(r.intents[0].side, Side::Buy);
    assert_eq!(r.intents[0].qty, 400);
    assert_eq!(r.intents[0].reason, IntentReason::OpenMissing);
}

/// Genuine direction flip (master is really net short): split into flatten + open.
#[test]
fn genuine_flip_is_split_into_two_legs() {
    let master = vec![pos("NVDA", -50)];
    let client = vec![pos("NVDA", 50)];
    let mut input = ReconcileInput::new(&master, &client);
    input.sizing = equal_balances();
    let r = reconcile(&input);
    assert_eq!(r.intents.len(), 2);
    assert_eq!(r.intents[0].reason, IntentReason::FlattenLeg);
    assert_eq!(r.intents[0].side, Side::Sell);
    assert_eq!(r.intents[0].qty, 50);
    assert_eq!(r.intents[1].reason, IntentReason::OpenLeg);
    assert_eq!(r.intents[1].side, Side::Sell);
    assert_eq!(r.intents[1].qty, 50);
}

/// Long-only must never produce a short, even when the master is short.
#[test]
fn long_only_never_shorts() {
    let master = vec![pos("SPY", -100)];
    let client = vec![pos("SPY", 100)];
    let mut input = ReconcileInput::new(&master, &client);
    input.sizing = equal_balances();
    input.long_only = true;
    let r = reconcile(&input);
    assert_eq!(r.intents.len(), 1);
    assert_eq!(r.intents[0].side, Side::Sell);
    assert_eq!(r.intents[0].qty, 100);
    assert_eq!(r.intents[0].reason, IntentReason::CloseOrphan);
}

#[test]
fn increase_existing_long() {
    let master = vec![pos("MSFT", 200)];
    let client = vec![pos("MSFT", 50)];
    let mut input = ReconcileInput::new(&master, &client);
    input.sizing = equal_balances();
    let r = reconcile(&input);
    assert_eq!(r.intents.len(), 1);
    assert_eq!(r.intents[0].side, Side::Buy);
    assert_eq!(r.intents[0].qty, 150);
    assert_eq!(r.intents[0].reason, IntentReason::IncreaseToTarget);
}

#[test]
fn reduce_existing_long_uses_market() {
    let master = vec![pos("QQQ", 30)];
    let client = vec![pos("QQQ", 100)];
    let mut input = ReconcileInput::new(&master, &client);
    input.sizing = equal_balances();
    let r = reconcile(&input);
    assert_eq!(r.intents.len(), 1);
    assert_eq!(r.intents[0].side, Side::Sell);
    assert_eq!(r.intents[0].qty, 70);
    assert_eq!(r.intents[0].kind, OrderKind::Market);
    assert_eq!(r.intents[0].reason, IntentReason::ReduceToTarget);
}

#[test]
fn blocks_when_master_disconnected() {
    let master: Vec<Position> = vec![];
    let client = vec![pos("X", 10)];
    let mut input = ReconcileInput::new(&master, &client);
    input.sizing = equal_balances();
    input.master_connected = false;
    let r = reconcile(&input);
    assert!(r.blocked);
    assert!(r.intents.is_empty());
}

#[test]
fn blocks_on_empty_master_with_many_client_positions() {
    let master: Vec<Position> = vec![];
    let client = vec![pos("A", 1), pos("B", 2), pos("C", 3)];
    let mut input = ReconcileInput::new(&master, &client);
    input.sizing = equal_balances();
    let r = reconcile(&input);
    assert!(r.blocked, "empty master + many client positions must block");
}

/// With a LOCKED target equal to the current holding, the engine does nothing — even
/// though live sizing would say 100.
#[test]
fn locked_target_suppresses_balance_drift_resize() {
    let master = vec![pos("AAPL", 100)];
    let client = vec![pos("AAPL", 50)];
    let targets = vec![("AAPL".to_string(), 50i64)];
    let mut input = ReconcileInput::new(&master, &client);
    input.sizing = equal_balances();
    input.targets = Some(&targets);
    let r = reconcile(&input);
    assert!(r.intents.is_empty(), "locked target == holding -> no resize");
}

/// When the locked target changes (because the master adjusted), the client resizes
/// toward exactly the new target.
#[test]
fn locked_target_change_drives_resize() {
    let master = vec![pos("AAPL", 100)];
    let client = vec![pos("AAPL", 50)];
    let targets = vec![("AAPL".to_string(), 120i64)];
    let mut input = ReconcileInput::new(&master, &client);
    input.sizing = equal_balances();
    input.targets = Some(&targets);
    let r = reconcile(&input);
    assert_eq!(r.intents.len(), 1);
    assert_eq!(r.intents[0].side, Side::Buy);
    assert_eq!(r.intents[0].qty, 70);
    assert_eq!(r.intents[0].reason, IntentReason::IncreaseToTarget);
}

#[test]
fn blocks_when_balances_unknown() {
    let master = vec![pos("A", 10)];
    let client: Vec<Position> = vec![];
    let input = ReconcileInput::new(&master, &client);
    let r = reconcile(&input);
    assert!(r.blocked);
}

// ── further scenarios ───────────────────────────────────────────────────────

#[test]
fn symbols_are_reconciled_in_sorted_order() {
    let master = vec![pos("TSLA", 10), pos("AAPL", 20)];
    let client = vec![pos("MSFT", 5)];
    let mut input = ReconcileInput::new(&master, &client);
    input.sizing = equal_balances();
    let r = reconcile(&input);
    let syms: Vec<&str> = r.intents.iter().map(|i| i.symbol.as_str()).collect();
    assert_eq!(syms, vec!["AAPL", "MSFT", "TSLA"]);
    assert_eq!(r.intents[1].reason, IntentReason::CloseOrphan);
}

#[test]
fn blocked_reason_counts_client_positions() {
    let master: Vec<Position> = vec![];
    let client = vec![pos("A", 1), pos("B", 2), pos("C", 3)];
    let mut input = ReconcileInput::new(&master, &client);
    input.sizing = equal_balances();
    let r = reconcile(&input);
    assert_eq!(
        r.blocked_reason.as_deref(),
        Some("0 target positions but local book holds 3 — holding (safety)")
    );
}

#[test]
fn flip_without_split_is_one_leg() {
    let master = vec![pos("NVDA", -50)];
    let client = vec![pos("NVDA", 50)];
    let mut input = ReconcileInput::new(&master, &client);
    input.sizing = equal_balances();
    input.split_zero_cross = false;
    let r = reconcile(&input);
    assert_eq!(r.intents.len(), 1);
    assert_eq!(r.intents[0].side, Side::Sell);
    assert_eq!(r.intents[0].qty, 100);
    assert_eq!(r.intents[0].reason, IntentReason::ReduceToTarget);
}

#[test]
fn opening_carries_master_order_hint() {
    let mut m = pos("AAPL", 10);
    m.order_kind = OrderKind::Limit;
    m.limit_price = usd(101);
    let master = vec![m];
    let client: Vec<Position> = vec![];
    let mut input = ReconcileInput::new(&master, &client);
    input.sizing = equal_balances();
    let r = reconcile(&input);
    assert_eq!(r.intents[0].kind, OrderKind::Limit);
    assert_eq!(r.intents[0].limit_price, usd(101));
    assert_eq!(r.intents[0].currency, "USD");
    assert_eq!(r.intents[0].exchange, "SMART");
}

#[test]
fn intent_reason_labels() {
    assert_eq!(IntentReason::OpenMissing.label(), "open missing");
    assert_eq!(IntentReason::CloseOrphan.label(), "close");
    assert_eq!(IntentReason::FlattenLeg.label(), "flatten");
}
