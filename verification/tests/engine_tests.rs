use pax_americana::engine::{
    close_all_orders, fill_is_sell, hold_after_margin, hold_before_margin, is_closing, is_due, is_notice_noise,
    is_opening, join_strings, margin_allows, resolve_account, DrawdownGuard, Hold, DRAWDOWN_CONFIRM_CYCLES,
};
use pax_americana::gate::update_targets;
use pax_americana::model::{OrderKind, Position, Side, PRICE_SCALE};
use pax_americana::reconcile::{IntentReason, TradeIntent};
use pax_americana::sizing::SizingParams;

fn usd(whole: i64) -> i64 {
    whole * PRICE_SCALE
}

fn names(v: &[&str]) -> Vec<String> {
    v.iter().map(|s| s.to_string()).collect()
}

fn intent(symbol: &str, side: Side, reason: IntentReason) -> TradeIntent {
    TradeIntent {
        symbol: symbol.to_string(),
        currency: "USD".to_string(),
        exchange: "SMART".to_string(),
        side,
        qty: 10,
        kind: OrderKind::Market,
        limit_price: 0,
        aux_price: 0,
        reason,
    }
}

fn table(v: &[(String, i64)]) -> Vec<(&str, i64)> {
    v.iter().map(|(k, q)| (k.as_str(), *q)).collect()
}

#[test]
fn account_resolution() {
    assert_eq!(resolve_account(" U123 ", &names(&["U456", "U123"])), Ok("U123".to_string()));
    assert_eq!(resolve_account("", &names(&["U1"])), Ok("U1".to_string()));
    assert_eq!(
        resolve_account("U9", &names(&["U1", "U2"])),
        Err("Account 'U9' not on this login (available: U1, U2). Stopping.".to_string())
    );
    assert_eq!(
        resolve_account("U9", &[]),
        Err("Account 'U9' not on this login (available: none). Stopping.".to_string())
    );
    assert_eq!(resolve_account("  ", &[]), Err("No account available on this login. Stopping.".to_string()));
    assert_eq!(
        resolve_account("", &names(&["U1", "U2"])),
        Err("This login manages multiple accounts (U1, U2). Set the Account field to choose one — refusing to trade across accounts."
            .to_string())
    );
}

#[test]
fn joins_with_separator() {
    assert_eq!(join_strings(&[], ", "), "");
    assert_eq!(join_strings(&names(&["a", "b", "c"]), "-"), "a-b-c");
}

#[test]
fn notice_noise_and_fills() {
    for code in [202, 2100, 2104, 2158, 2161] {
        assert!(is_notice_noise(code));
    }
    for code in [201, 2109, 0, -1] {
        assert!(!is_notice_noise(code));
    }
    assert!(fill_is_sell("SLD"));
    assert!(!fill_is_sell("BOT"));
}

#[test]
fn intent_reasons_are_opening_or_closing() {
    let all = [
        IntentReason::OpenMissing,
        IntentReason::IncreaseToTarget,
        IntentReason::OpenLeg,
        IntentReason::CloseOrphan,
        IntentReason::ReduceToTarget,
        IntentReason::FlattenLeg,
    ];
    for (i, r) in all.iter().enumerate() {
        assert_eq!(is_opening(*r), i < 3);
        assert_eq!(is_closing(*r), i >= 3);
    }
}

#[test]
fn throttled_messages() {
    assert!(is_due(None, 5, 1000));
    assert!(!is_due(Some(1000), 1500, 1000));
    assert!(is_due(Some(1000), 2001, 1000));
    assert!(!is_due(Some(3000), 2000, 1000), "a clock that went back is not due");
}

#[test]
fn drawdown_guard_measures_from_the_peak_and_latches() {
    let mut g = DrawdownGuard::new(usd(100_000));
    let limit = 10 * PRICE_SCALE; // 10%
    assert!(!g.observe(usd(120_000), limit));
    assert_eq!(g.peak_balance, usd(120_000));
    assert!(!g.observe(usd(108_001), limit), "9.99% below the peak");
    assert_eq!(g.breaches, 0);
    // Exactly 10% below the peak is a breach; it must persist before the guard trips.
    for _ in 1..DRAWDOWN_CONFIRM_CYCLES {
        assert!(!g.observe(usd(108_000), limit));
    }
    assert!(!g.hit);
    assert!(!g.observe(0, limit), "an unread balance neither counts nor resets");
    assert!(g.observe(usd(108_000), limit), "the confirming breach trips");
    assert!(g.hit);
    assert!(!g.observe(usd(200_000), limit), "already tripped: does not trip again");
    assert!(g.hit, "stays tripped");
    assert_eq!(g.peak_balance, usd(200_000));
    g.reset(usd(150_000));
    assert_eq!((g.peak_balance, g.breaches, g.hit), (usd(150_000), 0, false));
}

#[test]
fn drawdown_breach_run_is_broken_by_recovery() {
    let limit = 10 * PRICE_SCALE;
    let mut g = DrawdownGuard::resume(usd(130_000), usd(100_000));
    assert_eq!(g.peak_balance, usd(130_000), "the saved high-water mark is kept");
    assert!(!g.observe(usd(100_000), limit));
    assert!(!g.observe(usd(100_000), limit));
    assert!(!g.observe(usd(125_000), limit), "back within the limit");
    assert_eq!(g.breaches, 0);
    assert_eq!(DrawdownGuard::resume(0, usd(5)).peak_balance, usd(5));
}

#[test]
fn holds_before_margin() {
    let active = vec![("AAPL".to_string(), Side::Buy)];
    assert_eq!(hold_before_margin(&intent("AAPL", Side::Buy, IntentReason::OpenMissing), &active, false), Some(Hold::InFlight));
    assert_eq!(hold_before_margin(&intent("AAPL", Side::Sell, IntentReason::CloseOrphan), &active, true), Some(Hold::Rejected));
    assert_eq!(hold_before_margin(&intent("TSLA", Side::Buy, IntentReason::OpenMissing), &active, false), None);
}

#[test]
fn holds_after_margin() {
    let baseline = names(&["AAPL"]);
    let open = intent("AAPL", Side::Buy, IntentReason::OpenMissing);
    assert_eq!(hold_after_margin(&open, true, Some(&baseline), false), Some(Hold::PreExisting));
    assert_eq!(hold_after_margin(&open, false, Some(&baseline), true), Some(Hold::Cooldown));
    assert_eq!(hold_after_margin(&open, true, None, false), None);
    let close = intent("AAPL", Side::Sell, IntentReason::CloseOrphan);
    assert_eq!(hold_after_margin(&close, true, Some(&baseline), false), None, "orphan closes always proceed");
}

#[test]
fn margin_budget_shrinks() {
    assert_eq!(margin_allows(usd(10_000), Some(usd(4_000))), (true, usd(6_000)));
    assert_eq!(margin_allows(usd(6_000), Some(usd(7_000))), (false, usd(6_000)));
    assert_eq!(margin_allows(usd(6_000), None), (true, usd(6_000)));
    assert_eq!(margin_allows(usd(6_000), Some(usd(6_000))), (true, 0));
}

#[test]
fn close_all_flattens_each_position() {
    let ps = vec![Position::new("AAPL", 100), Position::new("TSLA", -40)];
    assert_eq!(close_all_orders(&ps), vec![(Side::Sell, 100), (Side::Buy, 40)]);
}

#[test]
fn gate_locks_targets_until_the_master_moves() {
    let mut seen: Vec<(String, i64)> = Vec::new();
    let mut locked: Vec<(String, i64)> = Vec::new();
    let equal = SizingParams { master_balance: usd(100_000), client_balance: usd(100_000), ..Default::default() };

    // Unknown balances: nothing happens.
    let unknown = SizingParams::default();
    assert!(!update_targets(&mut seen, &mut locked, &[Position::new("AAPL", 100)], &unknown, false));
    assert!(seen.is_empty() && locked.is_empty());

    let master = vec![Position::new("TSLA", -30), Position::new("AAPL", 100)];
    assert!(update_targets(&mut seen, &mut locked, &master, &equal, false));
    assert_eq!(table(&seen), vec![("AAPL", 100), ("TSLA", -30)]);
    assert_eq!(table(&locked), vec![("AAPL", 100), ("TSLA", -30)]);

    // The client balance doubles but the master did not move: targets stay locked.
    let doubled = SizingParams { client_balance: usd(200_000), ..equal };
    assert!(!update_targets(&mut seen, &mut locked, &master, &doubled, false));
    assert_eq!(table(&locked), vec![("AAPL", 100), ("TSLA", -30)]);

    // The master adds to AAPL: only AAPL relocks, with the current balances.
    let moved = vec![Position::new("TSLA", -30), Position::new("AAPL", 150)];
    assert!(update_targets(&mut seen, &mut locked, &moved, &doubled, false));
    assert_eq!(table(&locked), vec![("AAPL", 300), ("TSLA", -30)]);

    // The master closes TSLA: its target goes flat; long-only never locks a short.
    let closed = vec![Position::new("AAPL", 150)];
    assert!(update_targets(&mut seen, &mut locked, &closed, &doubled, true));
    assert_eq!(table(&seen), vec![("AAPL", 150), ("TSLA", 0)]);
    assert_eq!(table(&locked), vec![("AAPL", 300), ("TSLA", 0)]);
}
