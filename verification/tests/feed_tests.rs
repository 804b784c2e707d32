use pax_americana::config::probe_ports;
use pax_americana::license::may_trade;
use pax_americana::master_api::feed_collapsed;
use pax_americana::alert::alert_body;
use pax_americana::portfolio::{timeframe, BarKind, SpanUnit};
use pax_americana::alert::{implicit_tls, mail_ready, sender, AlertState, RESEND_MS};
use pax_americana::client_state::{LogLevel, LogLine};
use pax_americana::decimal::parse_fixed;
use pax_americana::display::{counts_line, money, recent_log, status_headline, tag, PANEL_LINES};
use pax_americana::feed::{
    apply_position_update, mark_offline, net_liquidation, nonempty, order_from_report, position_from_report,
    snapshot_of, OrderReport, PositionReport,
};
use pax_americana::flex::{delay_before, extract_tag, flex_start, flex_step, FlexAction, FlexEvent, FlexPhase};
use pax_americana::license::{license_status, LicenseEntry, LicenseReply, LicenseStatus};
use pax_americana::model::{OrderKind, Position, Side, WorkingOrder, PRICE_SCALE};
use pax_americana::portfolio::{
    apply_portfolio_update, clamp_window, initial_window, protective_levels, view_account, PortfolioRow,
};
use pax_americana::protocol::PROTOCOL_SCHEMA;
use pax_americana::report::{
    date_short, fmt_date, heatmap_cell_size, heatmap_years, report_plan, trade_row, ReportSections,
    TRADE_ROWS_PER_PAGE,
};
use pax_americana::round_trips::RoundTrip;
use pax_americana::sectors::{sector_name, symbols_to_classify};
use pax_americana::statement::parse_statement;

fn s(x: &str) -> String {
    x.to_string()
}

fn report(symbol: &str, position: i64) -> PositionReport {
    PositionReport { symbol: s(symbol), currency: s(""), exchange: s("NASDAQ"), position, avg_cost: 12 * PRICE_SCALE }
}

fn order(kind: &str, qty: i64) -> OrderReport {
    OrderReport {
        order_id: 42,
        symbol: s("AAPL"),
        currency: s("USD"),
        exchange: s(" "),
        order_type: s(kind),
        is_buy: false,
        total_quantity: qty,
        limit_price: Some(190 * PRICE_SCALE),
        aux_price: None,
    }
}

fn wo(kind: OrderKind, side: Side, limit: i64, aux: i64) -> WorkingOrder {
    WorkingOrder {
        symbol: s("AAPL"),
        currency: s("USD"),
        exchange: s("SMART"),
        side,
        quantity: 10,
        kind,
        limit_price: limit,
        aux_price: aux,
        is_entry: false,
    }
}

#[test]
fn fixed_point_parsing() {
    assert_eq!(parse_fixed("123.45"), Some(1_234_500));
    assert_eq!(parse_fixed("-0.00019"), Some(-1));
    assert_eq!(parse_fixed("+7"), Some(70_000));
    assert_eq!(parse_fixed(".5"), Some(5_000));
    assert_eq!(parse_fixed("3."), Some(30_000));
    assert_eq!(parse_fixed("1.23456789"), Some(12_345));
    assert_eq!(parse_fixed(""), None);
    assert_eq!(parse_fixed("."), None);
    assert_eq!(parse_fixed("1e5"), None);
    assert_eq!(parse_fixed("1,000"), None);
    assert_eq!(parse_fixed("922337203685477.5807"), Some(i64::MAX));
    assert_eq!(parse_fixed("922337203685477.5808"), None);
}

#[test]
fn reports_become_positions_and_orders() {
    assert_eq!(nonempty(s("  "), "USD"), "USD");
    assert_eq!(nonempty(s("EUR"), "USD"), "EUR");
    assert!(position_from_report(report("AAPL", 0)).is_none());
    let p = position_from_report(report("AAPL", -5)).unwrap();
    assert_eq!((p.symbol.as_str(), p.currency.as_str(), p.exchange.as_str()), ("AAPL", "USD", "NASDAQ"));
    assert_eq!((p.net_qty, p.avg_cost, p.order_kind), (-5, 12 * PRICE_SCALE, OrderKind::Market));

    assert!(order_from_report(order("MKT", 10)).is_none());
    assert!(order_from_report(order("LMT", 0)).is_none());
    let (id, w) = order_from_report(order("LMT", -10)).unwrap();
    assert_eq!(id, 42);
    assert_eq!((w.side, w.quantity, w.kind), (Side::Sell, 10, OrderKind::Limit));
    assert_eq!((w.limit_price, w.aux_price), (190 * PRICE_SCALE, 0));
    assert_eq!(w.exchange, "SMART");
    assert!(!w.is_entry);
}

#[test]
fn net_liquidation_takes_the_last_readable_value() {
    let items = vec![
        (s("NetLiquidation"), s("1000.5")),
        (s("AvailableFunds"), s("9")),
        (s("NetLiquidation"), s("oops")),
    ];
    assert_eq!(net_liquidation(&items), 1000 * PRICE_SCALE + 5_000);
    assert_eq!(net_liquidation(&[(s("NetLiquidation"), s("250"))]), 250 * PRICE_SCALE);
    assert_eq!(net_liquidation(&[]), 0);
}

#[test]
fn position_book_updates() {
    let mut book: Vec<Position> = Vec::new();
    apply_position_update(&mut book, report("TSLA", 3));
    apply_position_update(&mut book, report("AAPL", 10));
    apply_position_update(&mut book, report("MSFT", 1));
    apply_position_update(&mut book, report("AAPL", 20));
    apply_position_update(&mut book, report("MSFT", 0));
    let view: Vec<(&str, i64)> = book.iter().map(|p| (p.symbol.as_str(), p.net_qty)).collect();
    assert_eq!(view, vec![("AAPL", 20), ("TSLA", 3)]);

    let syncing = snapshot_of(&s("DU1"), 5 * PRICE_SCALE, &book, false, 98);
    assert!(!syncing.connected, "a partial replay is not published as connected");
    let mut snap = snapshot_of(&s("DU1"), 5 * PRICE_SCALE, &book, true, 99);
    assert_eq!(snap.schema, PROTOCOL_SCHEMA);
    assert!(snap.connected);
    assert_eq!(snap.account, "DU1");
    assert_eq!(snap.positions.len(), 2);
    assert!(snap.working_orders.is_empty());
    assert_eq!(snap.generated_at_ms, 99);
    mark_offline(&mut snap, 120);
    assert!(!snap.connected);
    assert_eq!(snap.generated_at_ms, 120);
    assert_eq!(snap.positions.len(), 2, "the last positions stay");
}

#[test]
fn alert_monitor() {
    let threshold = 5 * 60_000;
    let mut st = AlertState::new();
    assert!(!st.tick(true, true, false, 4 * 60_000, 1_000_000, threshold));
    assert!(st.tick(true, true, false, 60_000, 1_060_000, threshold), "five weekday minutes down");
    assert_eq!(st.last_email_ms, Some(1_060_000));
    assert!(!st.tick(true, true, false, 60_000, 1_060_000 + RESEND_MS - 1, threshold), "not within the hour");
    assert!(st.tick(true, true, false, 60_000, 1_060_000 + RESEND_MS, threshold));
    assert!(!st.tick(true, true, true, 60_000_000, 99_999_999, threshold), "weekend time does not count");
    assert!(!st.tick(true, false, false, 0, 0, threshold));
    assert_eq!((st.down_weekday_ms, st.last_email_ms), (0, None), "reconnecting clears the accrual");
    assert_eq!(sender("  ", " me@x "), "me@x");
    assert_eq!(sender(" a@b ", "me@x"), "a@b");
    assert_eq!(mail_ready("smtp", "to@x", ""), Err("alert email/SMTP not fully configured"));
    assert_eq!(mail_ready("smtp", "to@x", "f@x"), Ok(()));
    assert!(implicit_tls(465));
    assert!(!implicit_tls(587));
}

#[test]
fn sectors() {
    assert_eq!(sector_name("Semiconductors", "Technology"), "Semiconductors");
    assert_eq!(sector_name("", "Technology"), "Technology");
    assert_eq!(sector_name("", ""), "Other");
    let cache = vec![(s("AAPL"), s("Tech"))];
    assert_eq!(symbols_to_classify(&[s("MSFT"), s("AAPL"), s("SPY")], &cache), vec![s("MSFT"), s("SPY")]);
}

#[test]
fn tags_are_extracted_and_trimmed() {
    let xml = "<FlexStatementResponse><Status>Success</Status><ReferenceCode> 123 </ReferenceCode></FlexStatementResponse>";
    assert_eq!(extract_tag(xml, "ReferenceCode"), Some(s("123")));
    assert_eq!(extract_tag(xml, "ErrorMessage"), None);
    assert_eq!(extract_tag("<a>open only", "a"), None);
}

fn request_of(a: &FlexAction) -> (u64, Option<String>, String) {
    match a {
        FlexAction::Request { wait_secs, status, url } => (*wait_secs, status.clone(), url.clone()),
        other => panic!("expected a request, got {:?}", other),
    }
}

#[test]
fn flex_conversation() {
    let (phase, action) = flex_start("TOK", "Q1");
    let (wait, status, url) = request_of(&action);
    assert_eq!(wait, 0);
    assert_eq!(status.as_deref(), Some("Sending request to IBKR…"));
    assert_eq!(
        url,
        "https://gdcdyn.interactivebrokers.com/Universal/servlet/FlexStatementService.SendRequest?t=TOK&q=Q1&v=3"
    );

    // A busy answer: retry after the first back-off.
    let busy = s("<FlexStatementResponse><ErrorMessage>Please try again shortly.</ErrorMessage></FlexStatementResponse>");
    let (next, action) = flex_step(phase, FlexEvent::Body(busy), "TOK", "Q1");
    let (wait, status, _) = request_of(&action);
    assert_eq!(wait, 30);
    assert_eq!(status.as_deref(), Some("IBKR busy — waiting 30s then retry 1/5…"));
    assert!(matches!(next, Some(FlexPhase::Sending { retry: 1 })));

    // The reference code arrives: poll for the statement.
    let ok = s("<R><ReferenceCode>777</ReferenceCode></R>");
    let (next, action) = flex_step(next.unwrap(), FlexEvent::Body(ok), "TOK", "Q1");
    let (wait, status, url) = request_of(&action);
    assert_eq!(wait, 2);
    assert_eq!(status.as_deref(), Some("Statement generating (ref 777)…"));
    assert_eq!(
        url,
        "https://gdcdyn.interactivebrokers.com/Universal/servlet/FlexStatementService.GetStatement?t=TOK&q=777&v=3"
    );
    let phase = next.unwrap();
    assert!(matches!(&phase, FlexPhase::Polling { reference, attempts: 1 } if reference == "777"));

    let (next, action) = flex_step(phase, FlexEvent::Body(s("Statement generation in progress")), "TOK", "Q1");
    assert_eq!(request_of(&action).1.as_deref(), Some("Generating… (attempt 1)"));
    let (done, action) = flex_step(next.unwrap(), FlexEvent::Body(s("<FlexQueryResponse/>")), "TOK", "Q1");
    assert!(done.is_none());
    assert!(matches!(action, FlexAction::Parse(ref x) if x == "<FlexQueryResponse/>"));
}

#[test]
fn flex_failures() {
    let (phase, _) = flex_start("T", "Q");
    let bad = s("<R><ErrorMessage>Invalid token</ErrorMessage></R>");
    let (next, action) = flex_step(phase, FlexEvent::Body(bad), "T", "Q");
    assert!(next.is_none());
    assert!(matches!(action, FlexAction::Fail(ref m) if m == "Flex: Invalid token"));

    let (_, action) = flex_step(FlexPhase::Sending { retry: 5 }, FlexEvent::Body(s("<E><ErrorMessage>Too many requests</ErrorMessage></E>")), "T", "Q");
    assert!(matches!(action, FlexAction::Fail(ref m) if m == "IBKR unavailable after retries. Wait 5 min, then FETCH again."));

    let (_, action) = flex_step(FlexPhase::Polling { reference: s("1"), attempts: 30 }, FlexEvent::Body(s("wait")), "T", "Q");
    assert!(matches!(action, FlexAction::Fail(ref m) if m == "Flex statement timed out."));

    let (_, action) = flex_step(FlexPhase::Polling { reference: s("1"), attempts: 3 }, FlexEvent::Body(s("<Status>Fail</Status>")), "T", "Q");
    assert!(matches!(action, FlexAction::Fail(ref m) if m == "Flex error: Unknown"));

    let (_, action) = flex_step(FlexPhase::Sending { retry: 0 }, FlexEvent::HttpError(s("timeout")), "T", "Q");
    assert!(matches!(action, FlexAction::Fail(ref m) if m == "HTTP error: timeout"));

    assert_eq!([0, 1, 2, 3, 4, 5].map(delay_before), [0, 30, 60, 60, 90, 120]);
}

#[test]
fn statements_parse_into_records() {
    let xml = r#"<FlexQueryResponse><FlexStatements><FlexStatement>
<Trades>
<Trade dateTime="20240105;100000" symbol="AAPL" buySell="SELL" quantity="-60" tradePrice="160.5" proceeds="9,630" ibCommission="-1.25" realizedPnL="600" assetCategory="STK" currency="USD" description="APPLE"/>
<Trade dateTime="20240102;093000" symbol="AAPL" buySell="BUY" quantity="100" tradePrice="150" ibCommission="-1"/>
<Trade dateTime="20240103;093000" symbol="" buySell="BUY" quantity="5" tradePrice="1"/>
<Trade dateTime="20240103;093000" symbol="MSFT" buySell="BUY" quantity="0" tradePrice="1"/>
</Trades>
<EquitySummaryInBase>
<EquitySummaryByReportDateInBase reportDate="20240103" total="101000"/>
<EquitySummaryByReportDateInBase reportDate="20240102" total="100000.25"/>
<EquitySummaryByReportDateInBase reportDate="20240103" total="999"/>
<EquitySummaryByReportDateInBase reportDate="20240104" total="0"/>
</EquitySummaryInBase>
<CashTransactions>
<CashTransaction type="Deposits/Withdrawals" dateTime="20240110;120000" amount="-500"/>
<CashTransaction type="Dividends" dateTime="20240109;120000" amount="3"/>
<CashTransaction type="Deposits/Withdrawals" dateTime="20240101" amount="2,000"/>
</CashTransactions>
</FlexStatement></FlexStatements></FlexQueryResponse>"#;
    let (trades, nav, cash) = parse_statement(xml).expect("well-formed");
    assert_eq!(trades.len(), 2);
    assert_eq!(trades[0].date_time, "20240102;093000");
    assert_eq!((trades[0].quantity, trades[0].price, trades[0].commission), (100 * PRICE_SCALE, 150 * PRICE_SCALE, PRICE_SCALE));
    assert_eq!(trades[1].quantity, -60 * PRICE_SCALE);
    assert_eq!(trades[1].price, 1_605_000);
    assert_eq!(trades[1].proceeds, 9_630 * PRICE_SCALE);
    assert_eq!(trades[1].commission, 12_500);
    assert_eq!(trades[1].description, "APPLE");
    assert_eq!(trades[1].sector, "");
    let nav_view: Vec<(&str, i64)> = nav.iter().map(|p| (p.date.as_str(), p.nav)).collect();
    assert_eq!(nav_view, vec![("20240102", 100_000 * PRICE_SCALE + 2_500), ("20240103", 101_000 * PRICE_SCALE)]);
    let cash_view: Vec<(&str, i64)> = cash.iter().map(|c| (c.date.as_str(), c.amount)).collect();
    assert_eq!(cash_view, vec![("20240101", 2_000 * PRICE_SCALE), ("20240110", -500 * PRICE_SCALE)]);
}

#[test]
fn malformed_statement_is_an_xml_error() {
    let e = parse_statement("<a><b></a>").unwrap_err();
    assert!(e.starts_with("XML: "));
}

#[test]
fn license_decisions() {
    let entries = vec![
        LicenseEntry { text: Some(s("U111")), key: None, account: None },
        LicenseEntry { text: None, key: Some(s("U222")), account: Some(s("ignored")) },
        LicenseEntry { text: None, key: None, account: Some(s("U333")) },
    ];
    let reply = LicenseReply::Listed(entries);
    for acct in ["U111", "U222", "U333"] {
        assert_eq!(license_status(&reply, acct), LicenseStatus::Authorized);
    }
    assert_eq!(license_status(&reply, "ignored"), LicenseStatus::Denied);
    assert_eq!(license_status(&LicenseReply::NoList, "U111"), LicenseStatus::Unknown);
    assert_eq!(license_status(&LicenseReply::Unavailable, "U111"), LicenseStatus::Unknown);
}

#[test]
fn portfolio_view() {
    let accts = vec![s("U1"), s("U2")];
    assert_eq!(view_account(" U2 ", &accts), "U2");
    assert_eq!(view_account("U9", &accts), "U1");
    assert_eq!(view_account("", &[]), "");

    let row = |sym: &str, position: i64| PortfolioRow {
        symbol: s(sym),
        position,
        market_price: 0,
        market_value: 0,
        avg_cost: 0,
        unrealized_pnl: 0,
    };
    let mut book = Vec::new();
    apply_portfolio_update(&mut book, row("TSLA", 1));
    apply_portfolio_update(&mut book, row("AAPL", 2));
    apply_portfolio_update(&mut book, row("TSLA", 0));
    let syms: Vec<&str> = book.iter().map(|r| r.symbol.as_str()).collect();
    assert_eq!(syms, vec!["AAPL"]);

    assert_eq!(initial_window(500), (90, 410));
    assert_eq!(initial_window(5), (5, 0));
    assert_eq!(clamp_window(500, 3, 0), (8, 0));
    assert_eq!(clamp_window(500, 1000, 7), (500, 0));
    assert_eq!(clamp_window(100, 20, 95), (20, 80));
    assert_eq!(clamp_window(3, 1, 2), (3, 0));

    let orders = vec![
        wo(OrderKind::Stop, Side::Sell, 0, 140 * PRICE_SCALE),
        wo(OrderKind::Limit, Side::Sell, 180 * PRICE_SCALE, 0),
        wo(OrderKind::Limit, Side::Buy, 120 * PRICE_SCALE, 0),
    ];
    assert_eq!(protective_levels(true, "AAPL", &orders), (Some(140 * PRICE_SCALE), Some(180 * PRICE_SCALE)));
    assert_eq!(protective_levels(false, "AAPL", &orders), (None, Some(120 * PRICE_SCALE)));
    assert_eq!(protective_levels(true, "MSFT", &orders), (None, None));
}

#[test]
fn report_text() {
    assert_eq!(fmt_date("20240105;100000"), "2024-01-05");
    assert_eq!(fmt_date("2024-01-05"), "2024-01-05");
    assert_eq!(fmt_date("2024"), "2024");
    assert_eq!(date_short("20240105"), "01/05");
    assert_eq!(date_short("x"), "x");
    let t = RoundTrip {
        symbol: s("AAPL"),
        side: s("Long"),
        qty: 60 * PRICE_SCALE,
        entry_time: s("20240102"),
        exit_time: s("20240105;100000"),
        entry_price: 150 * PRICE_SCALE,
        exit_price: 1_600_050,
        pnl: 6_003_000,
        return_pct: 66_666,
        commission: 0,
        holding_days: 3,
        sector: s(""),
    };
    assert_eq!(
        trade_row(&t),
        "2024-01-05    AAPL        Long    60       150.00     160.01     600.30       6.7%"
    );
    let mut loss = t;
    loss.pnl = -40;
    loss.return_pct = -4;
    assert!(trade_row(&loss).ends_with("-0.00       -0.0%"));
}

#[test]
fn report_plan_and_heatmap() {
    let all = ReportSections { equity: true, drawdown: false, histogram: false, pies: false, symbol_bar: false, monthly: true, trade_list: true };
    let p = report_plan(&all, 500);
    assert!(p.trend_page && !p.distribution_page && p.breakdown_page);
    assert_eq!(p.trade_rows, TRADE_ROWS_PER_PAGE);
    assert_eq!(report_plan(&all, 0).trade_rows, 0);
    assert_eq!(report_plan(&all, 12).trade_rows, 12);
    assert_eq!(heatmap_years(&[(2024, 3), (2023, 12), (2024, 1), (2022, 5)]), vec![2022, 2023, 2024]);
    assert_eq!(heatmap_cell_size(800, 400, 3), (60, 28));
    assert_eq!(heatmap_cell_size(100, 100, 10), (10, 12));
    assert_eq!(heatmap_cell_size(10, 10, 1), (10, 12));
}

#[test]
fn window_text() {
    assert_eq!(money(1_234_567 * PRICE_SCALE + 8_950), "$1,234,567.90");
    assert_eq!(money(-5_000), "-$0.50");
    assert_eq!(money(999 * PRICE_SCALE), "$999.00");
    assert_eq!(money(9_960), "$1.00");
    assert_eq!(money(-10_000_000), "-$1,000.00");
    assert_eq!(money(0), "$0.00");
    assert_eq!(money(999_999_950), "$100,000.00");
    assert_eq!(tag(LogLevel::Success), "OK  ");
    assert_eq!(tag(LogLevel::Error), "ERR ");
    let lines: Vec<LogLine> = (0..PANEL_LINES + 2)
        .map(|i| LogLine { ts: s("t"), level: LogLevel::Info, msg: format!("m{}", i) })
        .collect();
    let text = recent_log(&lines);
    assert!(text.starts_with("[t] INFO m2\n"));
    assert!(text.ends_with(&format!("[t] INFO m{}\n", PANEL_LINES + 1)));
    assert_eq!(text.lines().count(), PANEL_LINES);
}

#[test]
fn alert_text() {
    let body = alert_body(9_000_000, "U123");
    assert!(body.starts_with("Your trading connection has been offline for about 2.5 hour(s) during market days.\n\nAccount: U123\n\n"));
    assert!(body.ends_with("until the connection is restored."));
    assert!(alert_body(0, "").contains("about 0.0 hour(s)"));
    assert!(alert_body(3_419_999, "").contains("about 0.9 hour(s)"));
    assert!(alert_body(3_420_000, "").contains("about 1.0 hour(s)"));
}

#[test]
fn chart_timeframes() {
    assert_eq!(timeframe(0), (BarKind::Min1, SpanUnit::Days, 1, "M1"));
    assert_eq!(timeframe(3), (BarKind::Min30, SpanUnit::Months, 1, "M30"));
    assert_eq!(timeframe(6), (BarKind::Day, SpanUnit::Years, 1, "D1"));
    assert_eq!(timeframe(8), (BarKind::Month, SpanUnit::Years, 10, "MN"));
    assert_eq!(timeframe(200), (BarKind::Day, SpanUnit::Years, 1, "D1"));
}

#[test]
fn partial_feed_and_license_resilience_and_ports() {
    assert!(!feed_collapsed(None, 0));
    assert!(feed_collapsed(Some(10), 4), "more than half the positions vanished");
    assert!(!feed_collapsed(Some(10), 5), "exactly half is accepted");
    assert!(!feed_collapsed(Some(4), 4), "a sustained reduction is applied");
    assert!(feed_collapsed(Some(1), 0));
    assert!(may_trade(LicenseStatus::Authorized, false));
    assert!(!may_trade(LicenseStatus::Denied, true));
    assert!(may_trade(LicenseStatus::Unknown, true));
    assert!(!may_trade(LicenseStatus::Unknown, false));
    assert_eq!(probe_ports(4002, 4001), vec![4002, 4001, 7496, 7497]);
    assert_eq!(probe_ports(7497, 7496), vec![7497, 7496, 4001, 4002]);
    assert_eq!(probe_ports(5000, 5000), vec![5000, 7496, 7497, 4001, 4002]);
}

#[test]
fn window_status_lines() {
    assert_eq!(status_headline(true, true, true), "⚠ DRAWDOWN HALT");
    assert_eq!(status_headline(false, true, false), "● CONNECTED — syncing");
    assert_eq!(status_headline(false, false, true), "… connecting");
    assert_eq!(status_headline(false, false, false), "■ STOPPED");
    let mut st = pax_americana::client_state::Status::default();
    st.master_positions = 3;
    st.client_positions = 2;
    st.orders_placed = 10;
    st.orders_closed = 4;
    st.orders_failed = 1;
    assert_eq!(counts_line(&st), "M·C 3·2   Opened 10  Closed 4  Failed 1");
}

#[test]
fn master_window_text() {
    assert_eq!(pax_americana::display::master_headline(true), "● CONNECTED — broadcasting");
    assert_eq!(pax_americana::display::master_headline(false), "✕ DISCONNECTED — connecting…");
    assert_eq!(pax_americana::display::account_label(""), "Account: —");
    assert_eq!(pax_americana::display::account_label("DU9"), "Account: DU9");
    assert_eq!(pax_americana::display::master_tag(pax_americana::master_state::LogLevel::Error), "ERR ");
    assert_eq!(pax_americana::display::master_tag(pax_americana::master_state::LogLevel::Success), "OK  ");
}
