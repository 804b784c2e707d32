use pax_americana::market_hours::{days_from_civil, is_rth_at};
use pax_americana::model::PRICE_SCALE;
use pax_americana::sizing::{target_net_qty, SizingParams};
use pax_americana::update::version_gt;

/// A whole-currency amount in fixed-point units.
fn usd(whole: i64) -> i64 {
    whole * PRICE_SCALE
}

/// Build a UTC timestamp for a civil UTC date/time.
fn utc(y: i64, m: u32, d: u32, hh: i64, mm: i64) -> i64 {
    days_from_civil(y, m, d) * 86_400 + hh * 3600 + mm * 60
}

#[test]
fn winter_est_window() {
    // 2024-01-03 is a Wednesday. EST = UTC−5, so 10:00 ET = 15:00 UTC.
    assert!(is_rth_at(utc(2024, 1, 3, 15, 0)), "10:00 ET should be RTH");
    assert!(!is_rth_at(utc(2024, 1, 3, 14, 0)), "09:00 ET is before the open");
    assert!(!is_rth_at(utc(2024, 1, 3, 21, 30)), "16:30 ET is after the close");
    assert!(is_rth_at(utc(2024, 1, 3, 14, 30)), "09:30 ET is the open (inclusive)");
    assert!(!is_rth_at(utc(2024, 1, 3, 21, 0)), "16:00 ET is the close (exclusive)");
}

#[test]
fn summer_edt_window() {
    // 2024-07-03 is a Wednesday. EDT = UTC−4, so 10:00 ET = 14:00 UTC.
    assert!(is_rth_at(utc(2024, 7, 3, 14, 0)), "10:00 ET should be RTH in summer");
    assert!(!is_rth_at(utc(2024, 7, 3, 13, 0)), "09:00 ET is before the open");
}

#[test]
fn weekend_is_closed() {
    // 2024-01-06 is a Saturday, 2024-01-07 a Sunday — never RTH.
    assert!(!is_rth_at(utc(2024, 1, 6, 16, 0)));
    assert!(!is_rth_at(utc(2024, 1, 7, 16, 0)));
}

#[test]
fn version_comparison() {
    assert!(version_gt("2.1.0", "2.0.0"));
    assert!(version_gt("v2.0.1", "2.0.0"));
    assert!(version_gt("3.0.0", "2.9.9"));
    assert!(!version_gt("2.0.0", "2.0.0"));
    assert!(!version_gt("1.9.9", "2.0.0"));
}

// ── sizing ──────────────────────────────────────────────────────────────────

#[test]
fn unknown_balances_block() {
    let p = SizingParams::default();
    assert_eq!(target_net_qty(100, usd(10), &p), None);
}

#[test]
fn proportional_scaling() {
    // Client is 4x the master -> 100 shares scales to 400.
    let p = SizingParams {
        master_balance: usd(25_000),
        client_balance: usd(100_000),
        ..Default::default()
    };
    assert_eq!(target_net_qty(100, 0, &p), Some(400));
}

#[test]
fn multiplier_applies() {
    let p = SizingParams {
        master_balance: usd(100_000),
        client_balance: usd(100_000),
        multiplier: 25_000, // 2.5x
        ..Default::default()
    };
    assert_eq!(target_net_qty(10, 0, &p), Some(25));
}

#[test]
fn short_target_preserves_sign() {
    let p = SizingParams {
        master_balance: usd(50_000),
        client_balance: usd(50_000),
        ..Default::default()
    };
    assert_eq!(target_net_qty(-30, 0, &p), Some(-30));
}

#[test]
fn notional_clamp() {
    let p = SizingParams {
        master_balance: usd(10_000),
        client_balance: usd(1_000_000), // 100x
        max_position_notional: usd(5_000),
        ..Default::default()
    };
    // 10 * 100 = 1000 shares, but $5000 / $50 = 100 share cap.
    assert_eq!(target_net_qty(10, usd(50), &p), Some(100));
}
