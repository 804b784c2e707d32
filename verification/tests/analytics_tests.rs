use pax_americana::analytics::{days_between, parse_date};
use pax_americana::appdata::obfuscate;
use pax_americana::chart_data::{pnl_bins, running_peaks, top_symbols, HIST_BINS, TOP_SYMBOLS};
use pax_americana::master_api::{scrub_url, FetchOutcome, MasterApi};
use pax_americana::metrics::{compute_metrics, KeyedPnl, NavPoint};
use pax_americana::model::PRICE_SCALE;
use pax_americana::protocol::{MasterSnapshot, PROTOCOL_SCHEMA};
use pax_americana::round_trips::{build_round_trips, FlexTrade, RoundTrip};

fn trade(when: &str, symbol: &str, side: &str, quantity: i64, price_cents: i64) -> FlexTrade {
    FlexTrade {
        date_time: when.to_string(),
        symbol: symbol.to_string(),
        side: side.to_string(),
        quantity: quantity * PRICE_SCALE,
        price: price_cents * PRICE_SCALE / 100,
        proceeds: 0,
        commission: 0,
        realized_pnl: 0,
        asset_category: "STK".to_string(),
        currency: "USD".to_string(),
        description: String::new(),
        sector: String::new(),
    }
}

fn sample_trades() -> Vec<FlexTrade> {
    vec![
        trade("20240102;100000", "AAPL", "BUY", 100, 15_000),
        trade("20240103;100000", "TSLA", "SELL", -10, 20_000),
        trade("20240104;100000", "TSLA", "BUY", 10, 19_000),
        trade("20240105;100000", "AAPL", "SELL", -60, 16_000),
        trade("20240110;100000", "AAPL", "SELL", -60, 15_500),
    ]
}

fn sample_trips() -> Vec<RoundTrip> {
    build_round_trips(&sample_trades(), &[("AAPL".to_string(), "Technology".to_string())])
}

#[test]
fn dates_parse_without_dashes() {
    assert_eq!(parse_date("2024-03-15;10:00:00"), Some((2024, 3, 15)));
    assert_eq!(parse_date("20240315"), Some((2024, 3, 15)));
    assert_eq!(parse_date("2024031"), None);
    assert_eq!(parse_date("abcd0101"), None);
    // Each field reads as `str::parse` reads it, so a leading `+` is accepted.
    assert_eq!(parse_date("+2024010"), Some((202, 40, 10)));
}

#[test]
fn days_between_is_symmetric_and_zero_on_bad_dates() {
    assert_eq!(days_between("20240101", "20240301"), 60);
    assert_eq!(days_between("2024-03-01", "2024-01-01"), 60);
    assert_eq!(days_between("20230101", "20240101"), 365);
    assert_eq!(days_between("bad", "20240101"), 0);
}

#[test]
fn fifo_matches_oldest_lots_and_orders_by_exit() {
    let trips = sample_trips();
    assert_eq!(trips.len(), 3);

    // TSLA short, closed first.
    let t = &trips[0];
    assert_eq!((t.symbol.as_str(), t.side.as_str(), t.qty), ("TSLA", "Short", 10 * PRICE_SCALE));
    assert_eq!(t.pnl, 100 * PRICE_SCALE as i128);
    assert_eq!(t.return_pct, 5 * PRICE_SCALE as i128);
    assert_eq!(t.holding_days, 1);
    assert_eq!(t.sector, "");

    // AAPL: 60 of the 100 shares close at 160.
    let a = &trips[1];
    assert_eq!((a.symbol.as_str(), a.side.as_str(), a.qty), ("AAPL", "Long", 60 * PRICE_SCALE));
    assert_eq!((a.entry_price, a.exit_price), (150 * PRICE_SCALE, 160 * PRICE_SCALE));
    assert_eq!(a.pnl, 600 * PRICE_SCALE as i128);
    assert_eq!(a.return_pct, 66_666, "6.6666% truncated");
    assert_eq!(a.holding_days, 3);
    assert_eq!(a.entry_time, "20240102;100000");
    assert_eq!(a.exit_time, "20240105;100000");
    assert_eq!(a.sector, "Technology");

    // The remaining 40 close at 155; the 20 shares left over open a short lot.
    let b = &trips[2];
    assert_eq!(b.qty, 40 * PRICE_SCALE);
    assert_eq!(b.pnl, 200 * PRICE_SCALE as i128);
    assert_eq!(b.return_pct, 33_333);
    assert_eq!(b.holding_days, 8);
}

#[test]
fn fractional_shares_are_kept() {
    let mut buy = trade("20240102", "VOO", "BUY", 0, 40_000);
    buy.quantity = 5_000; // half a share
    let mut sell = trade("20240103", "VOO", "SELL", 0, 41_000);
    sell.quantity = -5_000;
    let trips = build_round_trips(&[buy, sell], &[]);
    assert_eq!(trips.len(), 1);
    assert_eq!(trips[0].qty, 5_000);
    assert_eq!(trips[0].pnl, 5 * PRICE_SCALE as i128);
    assert_eq!(trips[0].return_pct, 25_000);
}

#[test]
fn open_position_makes_no_trip() {
    let trips = build_round_trips(&[trade("20240102", "MSFT", "BOT", 5, 40_000)], &[]);
    assert!(trips.is_empty());
}

#[test]
fn metrics_are_exact_sums() {
    let trips = sample_trips();
    let nav: Vec<NavPoint> = [
        ("20240102", 1000),
        ("20240115", 1100),
        ("20240131", 990),
        ("20240201", 1050),
        ("20240220", 1200),
    ]
    .iter()
    .map(|(d, v)| NavPoint { date: d.to_string(), nav: v * PRICE_SCALE })
    .collect();
    let m = compute_metrics(&trips, &nav);
    let s = &m.trades;
    let usd = |x: i128| x * PRICE_SCALE as i128;
    assert_eq!((s.total_trades, s.winners, s.losers), (3, 3, 0));
    assert_eq!(s.gross_profit, usd(900));
    assert_eq!(s.gross_loss, 0);
    assert_eq!(s.total_pnl, usd(900));
    assert_eq!((s.long_pnl, s.short_pnl), (usd(800), usd(100)));
    assert_eq!((s.best_trade, s.worst_trade), (usd(600), usd(100)));
    assert_eq!(s.holding_days_total, 12);
    let per_symbol: Vec<(&str, i128)> = s.per_symbol_pnl.iter().map(|k| (k.key.as_str(), k.pnl)).collect();
    assert_eq!(per_symbol, vec![("AAPL", usd(800)), ("TSLA", usd(100))]);
    let per_sector: Vec<(&str, i128)> = s.per_sector_pnl.iter().map(|k| (k.key.as_str(), k.pnl)).collect();
    assert_eq!(per_sector, vec![("Technology", usd(800)), ("Unknown", usd(100))]);

    let n = m.nav.expect("two or more points");
    assert_eq!((n.first_nav, n.last_nav), (1000 * PRICE_SCALE, 1200 * PRICE_SCALE));
    assert_eq!(n.days, 49);
    assert_eq!((n.max_dd_num, n.max_dd_den), (110 * PRICE_SCALE, 1100 * PRICE_SCALE));
    assert_eq!(n.max_dd_duration, 3);
    let months: Vec<(i32, u32, i64, i64)> = n.monthly.iter().map(|b| (b.year, b.month, b.base, b.last)).collect();
    assert_eq!(
        months,
        vec![(2024, 1, 1000 * PRICE_SCALE, 990 * PRICE_SCALE), (2024, 2, 990 * PRICE_SCALE, 1200 * PRICE_SCALE)]
    );
}

#[test]
fn metrics_without_trips_or_nav() {
    let m = compute_metrics(&[], &[NavPoint { date: "20240101".to_string(), nav: 1 }]);
    assert_eq!(m.trades.total_trades, 0);
    assert_eq!((m.trades.best_trade, m.trades.worst_trade), (0, 0));
    assert!(m.trades.per_symbol_pnl.is_empty());
    assert!(m.nav.is_none());
}

#[test]
fn obfuscation_round_trips() {
    let plain = b"{\"multiplier\":1.5}".to_vec();
    let mut data = plain.clone();
    obfuscate(&mut data);
    assert_ne!(data, plain);
    assert_eq!(data[0], b'{' ^ b'p');
    obfuscate(&mut data);
    assert_eq!(data, plain);
}

#[test]
fn scrub_removes_the_server_address() {
    let base = "http://10.1.2.3:5001";
    assert_eq!(
        scrub_url("http://10.1.2.3:5001/snapshot: Connection Failed: Connect error", base),
        "Connection Failed: Connect error"
    );
    assert_eq!(scrub_url("timeout talking to http://10.1.2.3:5001", base), "timeout talking to host");
    assert_eq!(scrub_url("  ", base), "no response");
}

#[test]
fn master_api_urls_and_key() {
    let api = MasterApi::new("http://m:5001//", "");
    assert_eq!(api.snapshot_url(), "http://m:5001/snapshot");
    assert_eq!(api.api_key_header(), None);
    let keyed = MasterApi::new("http://m:5001", "s3cret");
    assert_eq!(keyed.api_key_header(), Some("s3cret"));
}

#[test]
fn master_api_accepts_only_current_schema() {
    let api = MasterApi::new("http://m:5001", "");
    let ok = api.accept(FetchOutcome::Parsed(MasterSnapshot::default()));
    assert_eq!(ok.map(|s| s.schema).ok(), Some(PROTOCOL_SCHEMA));

    let mut old = MasterSnapshot::default();
    old.schema = 1;
    assert_eq!(api.accept(FetchOutcome::Parsed(old)).err(), Some("version mismatch (remote 1, local 2)".to_string()));
    assert_eq!(
        api.accept(FetchOutcome::Unreachable("http://m:5001/snapshot: refused".to_string())).err(),
        Some("unreachable (refused)".to_string())
    );
    assert_eq!(
        api.accept(FetchOutcome::ReadFailed("eof".to_string())).err(),
        Some("read failed: eof".to_string())
    );
    assert_eq!(
        api.accept(FetchOutcome::BadData("expected value".to_string())).err(),
        Some("bad data: expected value".to_string())
    );
}

#[test]
fn drawdown_peaks_and_histogram() {
    let nav: Vec<NavPoint> = [100, 120, 90, 130]
        .iter()
        .map(|v| NavPoint { date: "20240101".to_string(), nav: v * PRICE_SCALE })
        .collect();
    let peaks: Vec<i64> = running_peaks(&nav).iter().map(|p| p / PRICE_SCALE).collect();
    assert_eq!(peaks, vec![100, 120, 120, 130]);
    assert!(running_peaks(&[]).is_empty());

    let s = PRICE_SCALE as i128;
    let bins = pnl_bins(&[-100 * s, 0, 50 * s, 200 * s]);
    assert_eq!(bins.len(), HIST_BINS);
    let filled: Vec<(usize, u32)> = bins.iter().enumerate().filter(|(_, c)| **c > 0).map(|(i, c)| (i, *c)).collect();
    assert_eq!(filled, vec![(0, 1), (10, 1), (15, 1), (29, 1)]);
    let one = pnl_bins(&[5 * s, 5 * s]);
    assert_eq!(one[0], 2);
    assert!(pnl_bins(&[]).iter().all(|c| *c == 0));
}

#[test]
fn symbol_bars_largest_first() {
    let per: Vec<KeyedPnl> = [("A", 5), ("B", -3), ("C", 10), ("D", 5)]
        .iter()
        .map(|(k, v)| KeyedPnl { key: k.to_string(), pnl: *v })
        .collect();
    let top = top_symbols(&per, 3);
    assert_eq!(top, vec![("C".to_string(), 10), ("A".to_string(), 5), ("D".to_string(), 5)]);
    let all = top_symbols(&per, TOP_SYMBOLS);
    assert_eq!(all.len(), 4);
    assert_eq!(all[3], ("B".to_string(), -3));
}
