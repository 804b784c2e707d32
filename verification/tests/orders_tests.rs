use pax_americana::model::{OrderKind, Position, Side, WorkingOrder, PRICE_SCALE};
use pax_americana::orders::{desired_working_orders, diff_working_orders, effective_positions};
use pax_americana::sizing::SizingParams;

fn usd(whole: i64) -> i64 {
    whole * PRICE_SCALE
}

fn equal_balances() -> SizingParams {
    SizingParams {
        master_balance: usd(100_000),
        client_balance: usd(100_000),
        ..Default::default()
    }
}

fn wo(symbol: &str, side: Side, qty: i64, is_entry: bool) -> WorkingOrder {
    WorkingOrder {
        symbol: symbol.into(),
        currency: "USD".into(),
        exchange: "SMART".into(),
        side,
        quantity: qty,
        kind: OrderKind::Limit,
        limit_price: usd(100),
        aux_price: 0,
        is_entry,
    }
}

#[test]
fn scales_quantity_proportionally() {
    let sizing = SizingParams {
        master_balance: usd(25_000),
        client_balance: usd(100_000),
        ..Default::default()
    };
    let d = desired_working_orders(&[wo("AAPL", Side::Buy, 100, true)], &sizing, false, &[]);
    assert_eq!(d.len(), 1);
    assert_eq!(d[0].quantity, 400);
    assert_eq!(d[0].limit_price, usd(100));
}

#[test]
fn long_only_drops_entry_sells() {
    let d = desired_working_orders(&[wo("X", Side::Sell, 10, true)], &equal_balances(), true, &[]);
    assert!(d.is_empty(), "entry sell must be dropped in long-only");
}

#[test]
fn long_only_caps_protective_sell_to_long() {
    // Master protective sell 100, but client only holds 40 long -> cap to 40.
    let d = desired_working_orders(
        &[wo("X", Side::Sell, 100, false)],
        &equal_balances(),
        true,
        &[Position::new("X", 40)],
    );
    assert_eq!(d.len(), 1);
    assert_eq!(d[0].quantity, 40);
}

#[test]
fn diff_places_new_and_cancels_stale() {
    let desired = vec![wo("AAPL", Side::Buy, 10, true)];
    let current = vec![wo("TSLA", Side::Sell, 5, false)];
    let diff = diff_working_orders(&desired, &current);
    assert_eq!(diff.to_place.len(), 1);
    assert_eq!(diff.to_place[0].symbol, "AAPL");
    assert_eq!(diff.to_cancel.len(), 1);
}

#[test]
fn diff_is_noop_when_matched() {
    let desired = vec![wo("AAPL", Side::Buy, 10, true)];
    let current = vec![wo("AAPL", Side::Buy, 10, true)];
    let diff = diff_working_orders(&desired, &current);
    assert!(diff.to_place.is_empty());
    assert!(diff.to_cancel.is_empty());
}

/// Small quantity drift (balance wobble) must NOT cancel+replace.
#[test]
fn diff_tolerates_small_qty_drift() {
    let desired = vec![wo("AAPL", Side::Buy, 1005, true)];
    let current = vec![wo("AAPL", Side::Buy, 1000, true)];
    let diff = diff_working_orders(&desired, &current);
    assert!(diff.to_place.is_empty(), "tiny qty drift must not re-place");
    assert!(diff.to_cancel.is_empty(), "tiny qty drift must not cancel");
}

/// Tiny price drift (IBKR rounding/capping) must NOT churn. 100.00 vs 100.02 limit.
#[test]
fn diff_tolerates_tiny_price_drift() {
    let mut d = wo("AAPL", Side::Buy, 100, true);
    d.limit_price = 1_000_200; // 100.02
    let c = wo("AAPL", Side::Buy, 100, true); // limit_price 100.00
    let diff = diff_working_orders(&[d], &[c]);
    assert!(diff.to_place.is_empty());
    assert!(diff.to_cancel.is_empty());
}

/// A MATERIAL change (real master re-size) still replaces: 1000 -> 2000 shares.
#[test]
fn diff_replaces_on_material_change() {
    let desired = vec![wo("AAPL", Side::Buy, 2000, true)];
    let current = vec![wo("AAPL", Side::Buy, 1000, true)];
    let diff = diff_working_orders(&desired, &current);
    assert_eq!(diff.to_place.len(), 1, "material qty change must place new");
    assert_eq!(diff.to_cancel.len(), 1, "material qty change must cancel old");
}

#[test]
fn entry_orders_add_to_effective_exposure() {
    // Flat position + a pending entry buy 100 -> effective long 100.
    let eff = effective_positions(&[], &[wo("AAPL", Side::Buy, 100, true)]);
    assert_eq!(eff.len(), 1);
    assert_eq!(eff[0].net_qty, 100);
}

#[test]
fn protective_orders_do_not_change_effective_exposure() {
    // Long 100 with a protective stop-sell 100 -> effective stays long 100.
    let eff = effective_positions(
        &[Position::new("AAPL", 100)],
        &[wo("AAPL", Side::Sell, 100, false)],
    );
    assert_eq!(eff.len(), 1);
    assert_eq!(eff[0].net_qty, 100, "protective sell must not reduce target exposure");
}

// ── further scenarios ───────────────────────────────────────────────────────

#[test]
fn cancel_key_names_the_stale_order() {
    let current = vec![wo("TSLA", Side::Sell, 5, false)];
    let diff = diff_working_orders(&[], &current);
    assert_eq!(diff.to_cancel, vec!["TSLA|SELL|LMT|5|100.0000|0.0000".to_string()]);
}

#[test]
fn order_kind_parses_ib_strings() {
    assert_eq!(OrderKind::from_ib(" lmt "), OrderKind::Limit);
    assert_eq!(OrderKind::from_ib("stp lmt"), OrderKind::StopLimit);
    assert_eq!(OrderKind::from_ib("STPLMT"), OrderKind::StopLimit);
    assert_eq!(OrderKind::from_ib("stp"), OrderKind::Stop);
    assert_eq!(OrderKind::from_ib("MOC"), OrderKind::Market);
    assert_eq!(OrderKind::StopLimit.as_ib(), "STP LMT");
}

#[test]
fn flat_effective_positions_are_dropped() {
    let eff = effective_positions(
        &[Position::new("AAPL", 100)],
        &[wo("AAPL", Side::Sell, 100, true), wo("MSFT", Side::Buy, 3, true)],
    );
    assert_eq!(eff.len(), 1);
    assert_eq!(eff[0].symbol, "MSFT");
    assert_eq!(eff[0].net_qty, 3);
}
