//! Turning IBKR account reports into the library's records: positions, resting orders,
//! NetLiquidation, and the master's live position book that its snapshot publishes.

use vstd::prelude::*;

use crate::decimal::{fixed_parse, parse_fixed};
use crate::model::{kind_from_ib, OrderKind, Position, Side, WorkingOrder};
use crate::protocol::{MasterSnapshot, PROTOCOL_SCHEMA};
use crate::reconcile::find_pos;
use crate::book::{book_put, book_remove, find_key, keys_sorted, Keyed};
use crate::text::{str_eq, trim, trim_str};

verus! {

/// `s`, or `fallback` when `s` is blank.
pub open spec fn nonempty_spec(s: Seq<char>, fallback: Seq<char>) -> Seq<char> {
    if trim(s).len() == 0 {
        fallback
    } else {
        s
    }
}

/// `s`, or `fallback` when `s` is blank.
pub fn nonempty(s: String, fallback: &str) -> (r: String)
    ensures
        r@ == nonempty_spec(s@, fallback@),
{
    if trim_str(s.as_str()).unicode_len() == 0 {
        fallback.to_string()
    } else {
        s
    }
}

/// One position as IBKR reports it (amounts fixed-point).
#[derive(Debug)]
pub struct PositionReport {
    pub symbol: String,
    pub currency: String,
    pub exchange: String,
    pub position: i64,
    pub avg_cost: i64,
}

/// The position a report describes: currency `USD` and exchange `SMART` when IBKR
/// leaves them blank, a market-order hint; `None` for a flat report.
pub open spec fn report_position_ok(r: PositionReport, p: Position) -> bool {
    &&& p.symbol@ == r.symbol@
    &&& p.currency@ == nonempty_spec(r.currency@, "USD"@)
    &&& p.exchange@ == nonempty_spec(r.exchange@, "SMART"@)
    &&& p.net_qty == r.position
    &&& p.avg_cost == r.avg_cost
    &&& p.order_kind == OrderKind::Market
    &&& p.limit_price == 0
    &&& p.aux_price == 0
}

/// The position a report describes, or `None` when it is flat.
pub fn position_from_report(r: PositionReport) -> (p: Option<Position>)
    ensures
        match p {
            Some(p) => r.position != 0 && report_position_ok(r, p),
            None => r.position == 0,
        },
{
    if r.position == 0 {
        return None;
    }
    proof {
        reveal_strlit("USD");
        reveal_strlit("SMART");
    }
    let ghost r0 = r;
    let currency = nonempty(r.currency, "USD");
    let exchange = nonempty(r.exchange, "SMART");
    Some(Position {
        symbol: r.symbol,
        currency,
        exchange,
        net_qty: r.position,
        avg_cost: r.avg_cost,
        order_kind: OrderKind::Market,
        limit_price: 0,
        aux_price: 0,
    })
}

/// One open order as IBKR reports it (amounts fixed-point).
#[derive(Debug)]
pub struct OrderReport {
    pub order_id: i32,
    pub symbol: String,
    pub currency: String,
    pub exchange: String,
    pub order_type: String,
    pub is_buy: bool,
    pub total_quantity: i64,
    pub limit_price: Option<i64>,
    pub aux_price: Option<i64>,
}

pub open spec fn or_zero(o: Option<i64>) -> i64 {
    match o {
        Some(v) => v,
        None => 0,
    }
}

/// The resting order a report describes: market orders and empty orders are skipped; the
/// quantity is unsigned; missing prices are 0.
pub open spec fn report_order_ok(r: OrderReport, w: WorkingOrder) -> bool {
    &&& w.symbol@ == r.symbol@
    &&& w.currency@ == nonempty_spec(r.currency@, "USD"@)
    &&& w.exchange@ == nonempty_spec(r.exchange@, "SMART"@)
    &&& w.side == (if r.is_buy {
        Side::Buy
    } else {
        Side::Sell
    })
    &&& w.quantity == (if r.total_quantity < 0 {
        -r.total_quantity
    } else {
        r.total_quantity as int
    })
    &&& w.kind == kind_from_ib(r.order_type@)
    &&& w.limit_price == or_zero(r.limit_price)
    &&& w.aux_price == or_zero(r.aux_price)
    &&& !w.is_entry
}

/// The resting order a report describes (with its id), or `None` for a market order or
/// an empty one.
pub fn order_from_report(r: OrderReport) -> (o: Option<(i32, WorkingOrder)>)
    requires
        r.total_quantity > i64::MIN,
    ensures
        match o {
            Some((id, w)) => id == r.order_id && kind_from_ib(r.order_type@) != OrderKind::Market
                && r.total_quantity != 0 && report_order_ok(r, w),
            None => kind_from_ib(r.order_type@) == OrderKind::Market || r.total_quantity == 0,
        },
{
    let kind = OrderKind::from_ib(r.order_type.as_str());
    if kind == OrderKind::Market {
        return None;
    }
    let qty = if r.total_quantity < 0 {
        -r.total_quantity
    } else {
        r.total_quantity
    };
    if qty == 0 {
        return None;
    }
    proof {
        reveal_strlit("USD");
        reveal_strlit("SMART");
    }
    let side = if r.is_buy {
        Side::Buy
    } else {
        Side::Sell
    };
    let limit_price = match r.limit_price {
        Some(v) => v,
        None => 0,
    };
    let aux_price = match r.aux_price {
        Some(v) => v,
        None => 0,
    };
    let currency = nonempty(r.currency, "USD");
    let exchange = nonempty(r.exchange, "SMART");
    Some((
        r.order_id,
        WorkingOrder {
            symbol: r.symbol,
            currency,
            exchange,
            side,
            quantity: qty,
            kind,
            limit_price,
            aux_price,
            is_entry: false,
        },
    ))
}

/// NetLiquidation from account-summary `(tag, value)` items: the last `NetLiquidation`
/// value that reads as a number, or 0 when there is none.
pub open spec fn net_liq_spec(items: Seq<(String, String)>) -> int
    decreases items.len(),
{
    if items.len() == 0 {
        0
    } else {
        let it = items.last();
        if it.0@ == "NetLiquidation"@ && fixed_parse(it.1@) is Some {
            fixed_parse(it.1@)->0
        } else {
            net_liq_spec(items.drop_last())
        }
    }
}

/// NetLiquidation from account-summary items.
pub fn net_liquidation(items: &[(String, String)]) -> (r: i64)
    ensures
        r == net_liq_spec(items@),
{
    proof {
        reveal_strlit("NetLiquidation");
    }
    let mut bal: i64 = 0;
    let mut i: usize = 0;
    proof {
        assert(items@.take(0) =~= Seq::<(String, String)>::empty());
    }
    while i < items.len()
        invariant
            i <= items@.len(),
            bal == net_liq_spec(items@.take(i as int)),
        decreases items.len() - i,
    {
        proof {
            assert(items@.take(i + 1).drop_last() =~= items@.take(i as int));
            assert(items@.take(i + 1).last() == items@[i as int]);
        }
        if str_eq(items[i].0.as_str(), "NetLiquidation") {
            if let Some(v) = parse_fixed(items[i].1.as_str()) {
                bal = v;
            }
        }
        i = i + 1;
    }
    proof {
        assert(items@.take(i as int) =~= items@);
    }
    bal
}

// ── the master's position book ───────────────────────────────────────────────

impl Keyed for Position {
    open spec fn key_view(&self) -> Seq<char> {
        self.symbol@
    }

    fn key_str(&self) -> (r: &str) {
        self.symbol.as_str()
    }
}

/// Looking a symbol up in a book of positions is looking its key up.
proof fn lemma_find_pos_is_find_key(b: Seq<Position>, k: Seq<char>)
    ensures
        find_pos(b, k) == find_key(b, k),
    decreases b.len(),
{
    if b.len() > 0 {
        lemma_find_pos_is_find_key(b.drop_last(), k);
    }
}

/// Apply one streamed position update to the book: a flat report removes the symbol, any
/// other puts (or replaces) its position; every other symbol is untouched.
pub fn apply_position_update(book: &mut Vec<Position>, r: PositionReport)
    requires
        keys_sorted(old(book)@),
    ensures
        keys_sorted(final(book)@),
        forall|s: Seq<char>| s != r.symbol@ ==> #[trigger] find_pos(final(book)@, s) == find_pos(old(book)@, s),
        r.position == 0 ==> find_pos(final(book)@, r.symbol@) is None,
        r.position != 0 ==> (find_pos(final(book)@, r.symbol@) matches Some(p) && report_position_ok(r, p)),
{
    let ghost b0 = book@;
    let ghost sym = r.symbol@;
    let ghost rr = r;
    if r.position == 0 {
        book_remove(book, r.symbol.as_str());
    } else {
        match position_from_report(r) {
            Some(p) => book_put(book, p),
            None => {},
        }
    }
    proof {
        assert forall|s: Seq<char>| s != sym implies #[trigger] find_pos(book@, s) == find_pos(b0, s) by {
            lemma_find_pos_is_find_key(book@, s);
            lemma_find_pos_is_find_key(b0, s);
        }
        lemma_find_pos_is_find_key(book@, sym);
    }
}

/// The snapshot the master publishes: its account and balance, the book's positions in
/// symbol order, no resting orders, stamped `now_ms`; it reads as connected only once the
/// position replay that follows a (re)connect is complete, so clients never act on a
/// partially loaded book.
pub fn snapshot_of(account: &String, balance: i64, book: &Vec<Position>, replay_done: bool, now_ms: u64) -> (r: MasterSnapshot)
    ensures
        r.schema == PROTOCOL_SCHEMA,
        r.connected == replay_done,
        r.account@ == account@,
        r.balance == balance,
        r.positions@ == book@,
        r.working_orders@.len() == 0,
        r.generated_at_ms == now_ms,
{
    let mut positions: Vec<Position> = Vec::new();
    let mut i: usize = 0;
    while i < book.len()
        invariant
            i <= book@.len(),
            positions@ == book@.take(i as int),
        decreases book.len() - i,
    {
        positions.push(book[i].clone());
        proof {
            assert(positions@ =~= book@.take(i + 1));
        }
        i = i + 1;
    }
    proof {
        assert(book@.take(i as int) =~= book@);
    }
    MasterSnapshot {
        schema: PROTOCOL_SCHEMA,
        connected: replay_done,
        account: account.clone(),
        balance,
        positions,
        working_orders: Vec::new(),
        generated_at_ms: now_ms,
    }
}

/// Flip the feed to offline while keeping the last positions.
pub fn mark_offline(snap: &mut MasterSnapshot, now_ms: u64)
    ensures
        !final(snap).connected,
        final(snap).generated_at_ms == now_ms,
        final(snap).schema == old(snap).schema,
        final(snap).account == old(snap).account,
        final(snap).balance == old(snap).balance,
        final(snap).positions == old(snap).positions,
        final(snap).working_orders == old(snap).working_orders,
{
    snap.connected = false;
    snap.generated_at_ms = now_ms;
}

} // verus!
