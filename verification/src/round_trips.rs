//! FIFO round-trip matching of a statement's executions.
//!
//! Executions are grouped by symbol (symbols in sorted order, executions in statement
//! order). Within a symbol, an execution in the direction of the open position (or from
//! flat) opens a lot; one against it closes the oldest lots first, each closed slice
//! becoming a round trip, and whatever is left over opens a lot the other way. The trips
//! of all symbols are then ordered by exit time (a stable order: equal exit times keep
//! their order).

use vstd::prelude::*;

use crate::analytics::{days_between, days_between_spec, date_text_ok};
use crate::model::{MAX_QTY, PRICE_SCALE};
use crate::symbols::{insert_sorted, is_sorted_set, lemma_sorted_set_unique, strictly_sorted,
    views};
use crate::text::{contains_seq, contains_str, lemma_seq_lt_total, lemma_seq_lt_transitive, seq_lt,
    str_lt};
use vstd::string::StringSliceAdditionalSpecFns;

verus! {

/// Largest absolute execution price (fixed-point) the matcher deals in: $1,000,000,000.
pub const MAX_TRADE_PRICE: i64 = 10_000_000_000_000;

/// One execution of an IBKR Flex statement.
#[derive(Debug)]
pub struct FlexTrade {
    pub date_time: String,
    pub symbol: String,
    /// `BUY` / `SELL` (or `BOT` / `SLD`).
    pub side: String,
    /// Executed shares, fixed-point like prices so fractional shares are kept (IBKR signs
    /// sells negative).
    pub quantity: i64,
    /// Execution price (fixed-point).
    pub price: i64,
    pub proceeds: i64,
    pub commission: i64,
    pub realized_pnl: i64,
    pub asset_category: String,
    pub currency: String,
    pub description: String,
    pub sector: String,
}

/// One matched entry/exit slice.
#[derive(Debug)]
pub struct RoundTrip {
    pub symbol: String,
    /// `Long` or `Short`.
    pub side: String,
    /// Shares matched, fixed-point.
    pub qty: i64,
    pub entry_time: String,
    pub exit_time: String,
    /// Fixed-point prices.
    pub entry_price: i64,
    pub exit_price: i64,
    /// Profit in fixed-point money units (price difference times shares, truncated toward
    /// zero to a money unit).
    pub pnl: i128,
    /// Return on the entry cost in percent, fixed-point (`PRICE_SCALE` is 1%), truncated
    /// toward zero; 0 when the cost is not positive.
    pub return_pct: i128,
    pub commission: i64,
    pub holding_days: i64,
    pub sector: String,
}

/// The mathematical content of a [`RoundTrip`].
pub struct TripView {
    pub symbol: Seq<char>,
    pub side: Seq<char>,
    pub qty: int,
    pub entry_time: Seq<char>,
    pub exit_time: Seq<char>,
    pub entry_price: int,
    pub exit_price: int,
    pub pnl: int,
    pub return_pct: int,
    pub commission: int,
    pub holding_days: int,
    pub sector: Seq<char>,
}

impl View for RoundTrip {
    type V = TripView;

    open spec fn view(&self) -> TripView {
        TripView {
            symbol: self.symbol@,
            side: self.side@,
            qty: self.qty as int,
            entry_time: self.entry_time@,
            exit_time: self.exit_time@,
            entry_price: self.entry_price as int,
            exit_price: self.exit_price as int,
            pnl: self.pnl as int,
            return_pct: self.return_pct as int,
            commission: self.commission as int,
            holding_days: self.holding_days as int,
            sector: self.sector@,
        }
    }
}

pub open spec fn trip_views(s: Seq<RoundTrip>) -> Seq<TripView> {
    s.map_values(|t: RoundTrip| t@)
}

/// An open lot.
pub struct LotView {
    pub time: Seq<char>,
    pub price: int,
    pub qty: int,
    pub is_long: bool,
}

/// A statement date text that can be read (see [`date_text_ok`]).
pub open spec fn date_ok(v: Seq<char>) -> bool {
    date_text_ok(vstd::utf8::encode_utf8(v))
}

/// An execution the matcher accepts: bounded size and price, and a readable date.
pub open spec fn trade_ok(t: FlexTrade) -> bool {
    &&& -MAX_QTY <= t.quantity <= MAX_QTY
    &&& -MAX_TRADE_PRICE <= t.price <= MAX_TRADE_PRICE
    &&& date_ok(t.date_time@)
}

pub open spec fn trades_ok(ts: Seq<FlexTrade>) -> bool {
    forall|i: int| 0 <= i < ts.len() ==> trade_ok(#[trigger] ts[i])
}

pub open spec fn abs_int(x: int) -> int {
    if x < 0 {
        -x
    } else {
        x
    }
}

/// The execution buys (its side mentions `BUY` or `BOT`).
pub open spec fn is_buy(t: FlexTrade) -> bool {
    contains_seq(t.side@, "BUY"@) || contains_seq(t.side@, "BOT"@)
}

/// `a / b` rounded toward zero (`b > 0`).
pub open spec fn trunc_div(a: int, b: int) -> int {
    if a >= 0 {
        a / b
    } else {
        -((-a) / b)
    }
}

/// The round trip that closes `mq` shares of `lot` at execution `t`.
pub open spec fn trip_of(sym: Seq<char>, sector: Seq<char>, lot: LotView, t: FlexTrade, mq: int) -> TripView {
    let raw = if lot.is_long {
        (t.price - lot.price) * mq
    } else {
        (lot.price - t.price) * mq
    };
    let pnl = trunc_div(raw, PRICE_SCALE as int);
    let cost = lot.price * mq;
    TripView {
        symbol: sym,
        side: if lot.is_long {
            "Long"@
        } else {
            "Short"@
        },
        qty: mq,
        entry_time: lot.time,
        exit_time: t.date_time@,
        entry_price: lot.price,
        exit_price: t.price as int,
        pnl,
        return_pct: if cost > 0 {
            trunc_div(raw * 100 * PRICE_SCALE, cost)
        } else {
            0
        },
        commission: 0,
        holding_days: days_between_spec(
            vstd::utf8::encode_utf8(lot.time),
            vstd::utf8::encode_utf8(t.date_time@),
        ),
        sector,
    }
}

/// Close up to `remaining` shares against the oldest lots: the lots left, the shares
/// still unmatched, and the trips made.
pub open spec fn close_lots(
    lots: Seq<LotView>,
    remaining: int,
    t: FlexTrade,
    sym: Seq<char>,
    sector: Seq<char>,
) -> (Seq<LotView>, int, Seq<TripView>)
    decreases lots.len(),
{
    if remaining <= 0 || lots.len() == 0 {
        (lots, remaining, Seq::empty())
    } else {
        let lot = lots[0];
        let mq = if remaining < lot.qty {
            remaining
        } else {
            lot.qty
        };
        let trip = trip_of(sym, sector, lot, t, mq);
        if lot.qty - mq <= 0 {
            let rest = close_lots(lots.drop_first(), remaining - mq, t, sym, sector);
            (rest.0, rest.1, seq![trip] + rest.2)
        } else {
            (lots.update(0, LotView { qty: lot.qty - mq, ..lot }), remaining - mq, seq![trip])
        }
    }
}

/// Matching state of one symbol: open lots (oldest first), net position, trips so far.
pub struct FifoState {
    pub lots: Seq<LotView>,
    pub net: int,
    pub trips: Seq<TripView>,
}

/// One execution applied to the matching state.
pub open spec fn fifo_step(s: FifoState, t: FlexTrade, sym: Seq<char>, sector: Seq<char>) -> FifoState {
    let qty = abs_int(t.quantity as int);
    let buy = is_buy(t);
    let signed = if buy {
        qty
    } else {
        -qty
    };
    let lot = LotView { time: t.date_time@, price: t.price as int, qty, is_long: buy };
    if (s.net >= 0 && buy) || (s.net <= 0 && !buy) || s.net == 0 {
        FifoState { lots: s.lots.push(lot), net: s.net + signed, trips: s.trips }
    } else {
        let c = close_lots(s.lots, qty, t, sym, sector);
        FifoState {
            lots: if c.1 > 0 {
                c.0.push(LotView { qty: c.1, ..lot })
            } else {
                c.0
            },
            net: s.net + signed,
            trips: s.trips + c.2,
        }
    }
}

/// The executions of `trades` in symbol `sym`, in order.
pub open spec fn of_symbol(trades: Seq<FlexTrade>, sym: Seq<char>) -> Seq<FlexTrade>
    decreases trades.len(),
{
    if trades.len() == 0 {
        trades
    } else if trades.last().symbol@ == sym {
        of_symbol(trades.drop_last(), sym).push(trades.last())
    } else {
        of_symbol(trades.drop_last(), sym)
    }
}

/// Matching state after all of `trades` (all in one symbol).
pub open spec fn fifo(trades: Seq<FlexTrade>, sym: Seq<char>, sector: Seq<char>) -> FifoState
    decreases trades.len(),
{
    if trades.len() == 0 {
        FifoState { lots: Seq::empty(), net: 0, trips: Seq::empty() }
    } else {
        fifo_step(fifo(trades.drop_last(), sym, sector), trades.last(), sym, sector)
    }
}

/// The sector recorded for `sym` (the first entry naming it), or empty.
pub open spec fn sector_of(sectors: Seq<(String, String)>, sym: Seq<char>) -> Seq<char>
    decreases sectors.len(),
{
    if sectors.len() == 0 {
        Seq::empty()
    } else if sectors[0].0@ == sym {
        sectors[0].1@
    } else {
        sector_of(sectors.drop_first(), sym)
    }
}

/// The distinct symbols of `trades`.
pub open spec fn trade_symbols(trades: Seq<FlexTrade>) -> Set<Seq<char>> {
    Set::new(|s: Seq<char>| exists|i: int| 0 <= i < trades.len() && trades[i].symbol@ == s)
}

/// The distinct symbols of `trades`, in sorted order.
pub open spec fn symbol_order(trades: Seq<FlexTrade>) -> Seq<Seq<char>> {
    choose|s: Seq<Seq<char>>| is_sorted_set(s, trade_symbols(trades))
}

/// The trips of the symbols `syms`, symbol after symbol.
pub open spec fn trips_for(
    trades: Seq<FlexTrade>,
    sectors: Seq<(String, String)>,
    syms: Seq<Seq<char>>,
) -> Seq<TripView>
    decreases syms.len(),
{
    if syms.len() == 0 {
        Seq::empty()
    } else {
        let sym = syms.last();
        trips_for(trades, sectors, syms.drop_last()) + fifo(
            of_symbol(trades, sym),
            sym,
            sector_of(sectors, sym),
        ).trips
    }
}

/// Insert `x` into `sorted` after every trip that exits no later than it.
pub open spec fn insert_by_exit(sorted: Seq<TripView>, x: TripView) -> Seq<TripView>
    decreases sorted.len(),
{
    if sorted.len() == 0 {
        seq![x]
    } else if seq_lt(x.exit_time, sorted[0].exit_time) {
        seq![x] + sorted
    } else {
        seq![sorted[0]] + insert_by_exit(sorted.drop_first(), x)
    }
}

/// `s` stably ordered by exit time.
pub open spec fn sort_by_exit(s: Seq<TripView>) -> Seq<TripView>
    decreases s.len(),
{
    if s.len() == 0 {
        s
    } else {
        insert_by_exit(sort_by_exit(s.drop_last()), s.last())
    }
}

/// Every round trip of a statement, ordered by exit time.
pub open spec fn round_trips_spec(trades: Seq<FlexTrade>, sectors: Seq<(String, String)>) -> Seq<
    TripView,
> {
    sort_by_exit(trips_for(trades, sectors, symbol_order(trades)))
}


// ── matching, executable ─────────────────────────────────────────────────────

/// An open lot.
struct Lot {
    time: String,
    price: i64,
    qty: i64,
    is_long: bool,
}

impl View for Lot {
    type V = LotView;

    closed spec fn view(&self) -> LotView {
        LotView { time: self.time@, price: self.price as int, qty: self.qty as int, is_long: self.is_long }
    }
}

pub open spec fn lot_ok(l: LotView) -> bool {
    &&& 0 <= l.qty <= MAX_QTY
    &&& -MAX_TRADE_PRICE <= l.price <= MAX_TRADE_PRICE
    &&& date_ok(l.time)
}

spec fn lot_views(s: Seq<Lot>) -> Seq<LotView> {
    s.map_values(|l: Lot| l@)
}

/// The sector recorded for `sym`.
fn lookup_sector(sectors: &[(String, String)], sym: &String) -> (r: String)
    ensures
        r@ == sector_of(sectors@, sym@),
{
    let mut i: usize = 0;
    proof {
        assert(sectors@.skip(0) =~= sectors@);
    }
    while i < sectors.len()
        invariant
            i <= sectors@.len(),
            sector_of(sectors@, sym@) == sector_of(sectors@.skip(i as int), sym@),
        decreases sectors.len() - i,
    {
        proof {
            assert(sectors@.skip(i as int).drop_first() =~= sectors@.skip(i + 1));
        }
        if sectors[i].0 == *sym {
            return sectors[i].1.clone();
        }
        i = i + 1;
    }
    String::new()
}

/// Whether an execution buys.
fn trade_is_buy(t: &FlexTrade) -> (r: bool)
    ensures
        r == is_buy(*t),
{
    proof {
        reveal_strlit("BUY");
        reveal_strlit("BOT");
    }
    contains_str(t.side.as_str(), "BUY") || contains_str(t.side.as_str(), "BOT")
}

/// The round trip closing `mq` shares of `lot` at `t`.
fn make_trip(lot: &Lot, t: &FlexTrade, mq: i64, sym: &String, sector: &String) -> (r: RoundTrip)
    requires
        lot_ok(lot@),
        trade_ok(*t),
        0 <= mq <= MAX_QTY,
    ensures
        r@ == trip_of(sym@, sector@, lot@, *t, mq as int),
{
    let diff: i128 = if lot.is_long {
        t.price as i128 - lot.price as i128
    } else {
        lot.price as i128 - t.price as i128
    };
    assert(-2 * MAX_TRADE_PRICE <= diff <= 2 * MAX_TRADE_PRICE);
    assert(-2 * MAX_TRADE_PRICE * MAX_QTY <= diff * mq <= 2 * MAX_TRADE_PRICE * MAX_QTY)
        by (nonlinear_arith)
        requires
            -2 * MAX_TRADE_PRICE <= diff <= 2 * MAX_TRADE_PRICE,
            0 <= mq <= MAX_QTY,
    ;
    let raw: i128 = diff * mq as i128;
    let pnl: i128 = if raw >= 0 {
        raw / (PRICE_SCALE as i128)
    } else {
        0 - ((0 - raw) / (PRICE_SCALE as i128))
    };
    assert(-MAX_TRADE_PRICE * MAX_QTY <= lot.price * mq <= MAX_TRADE_PRICE * MAX_QTY)
        by (nonlinear_arith)
        requires
            -MAX_TRADE_PRICE <= lot.price <= MAX_TRADE_PRICE,
            0 <= mq <= MAX_QTY,
    ;
    let cost: i128 = lot.price as i128 * mq as i128;
    let scaled: i128 = raw * 100 * (PRICE_SCALE as i128);
    let ret: i128 = if cost > 0 {
        if scaled >= 0 {
            scaled / cost
        } else {
            0 - ((0 - scaled) / cost)
        }
    } else {
        0
    };
    proof {
        reveal_strlit("Long");
        reveal_strlit("Short");
    }
    let side = if lot.is_long {
        "Long".to_string()
    } else {
        "Short".to_string()
    };
    let held = days_between(lot.time.as_str(), t.date_time.as_str());
    RoundTrip {
        symbol: sym.clone(),
        side,
        qty: mq,
        entry_time: lot.time.clone(),
        exit_time: t.date_time.clone(),
        entry_price: lot.price,
        exit_price: t.price,
        pnl,
        return_pct: ret,
        commission: 0,
        holding_days: held,
        sector: sector.clone(),
    }
}


/// Every lot from `head` on is within bounds.
spec fn lots_ok_from(lots: Seq<Lot>, head: int) -> bool {
    forall|k: int| head <= k < lots.len() ==> lot_ok(#[trigger] lots[k]@)
}

proof fn lemma_lot_views_skip(lots: Seq<Lot>, head: int)
    requires
        0 <= head <= lots.len(),
    ensures
        lot_views(lots).skip(head).len() == lots.len() - head,
        forall|k: int|
            0 <= k < lots.len() - head ==> #[trigger] lot_views(lots).skip(head)[k] == lots[head + k]@,
{
}

/// Close up to `remaining` shares against the lots from `head` on, oldest first,
/// appending the trips made; returns the shares left unmatched.
fn close_front(
    lots: &mut Vec<Lot>,
    head: &mut usize,
    remaining: i64,
    t: &FlexTrade,
    sym: &String,
    sector: &String,
    trips: &mut Vec<RoundTrip>,
) -> (left: i64)
    requires
        *old(head) <= old(lots)@.len(),
        lots_ok_from(old(lots)@, *old(head) as int),
        trade_ok(*t),
        0 <= remaining <= MAX_QTY,
    ensures
        ({
            let c = close_lots(
                lot_views(old(lots)@).skip(*old(head) as int),
                remaining as int,
                *t,
                sym@,
                sector@,
            );
            &&& lot_views(final(lots)@).skip(*final(head) as int) == c.0
            &&& left == c.1
            &&& trip_views(final(trips)@) == trip_views(old(trips)@) + c.2
        }),
        *final(head) <= final(lots)@.len(),
        lots_ok_from(final(lots)@, *final(head) as int),
        0 <= left <= remaining,
{
    let ghost l0 = lot_views(lots@).skip(*head as int);
    let ghost t0 = trip_views(trips@);
    let ghost c0 = close_lots(l0, remaining as int, *t, sym@, sector@);
    let mut rem = remaining;
    let ghost mut made: Seq<TripView> = Seq::empty();
    proof {
        assert(trip_views(trips@) =~= t0 + made);
        assert(c0.2 =~= made + c0.2);
    }
    while rem > 0 && *head < lots.len()
        invariant
            *head <= lots@.len(),
            lots_ok_from(lots@, *head as int),
            trade_ok(*t),
            0 <= rem <= remaining <= MAX_QTY,
            c0 == close_lots(l0, remaining as int, *t, sym@, sector@),
            ({
                let c = close_lots(lot_views(lots@).skip(*head as int), rem as int, *t, sym@, sector@);
                &&& c0.0 == c.0
                &&& c0.1 == c.1
                &&& trip_views(trips@) == t0 + made
                &&& c0.2 == made + c.2
            }),
        decreases (lots@.len() - *head) + rem,
    {
        let h = *head;
        let ghost cur = lot_views(lots@).skip(h as int);
        proof {
            lemma_lot_views_skip(lots@, h as int);
            assert(lot_ok(lots@[h as int]@));
        }
        let lq = lots[h].qty;
        let mq: i64 = if rem < lq {
            rem
        } else {
            lq
        };
        let trip = make_trip(&lots[h], t, mq, sym, sector);
        let ghost tv = trip@;
        let ghost tr = trip;
        let ghost before = trips@;
        trips.push(trip);
        proof {
            assert(trips@ == before.push(tr));
            assert(trip_views(trips@) =~= trip_views(before).push(tv));
            assert(trip_views(trips@) =~= t0 + (made + seq![tv]));
        }
        let left = lq - mq;
        rem = rem - mq;
        if left <= 0 {
            *head = h + 1;
            proof {
                assert(cur.drop_first() =~= lot_views(lots@).skip(h + 1));
                assert(trip_views(trips@) =~= t0 + (made + seq![tv]));
                let c = close_lots(lot_views(lots@).skip(h + 1), rem as int, *t, sym@, sector@);
                assert(c0.2 =~= (made + seq![tv]) + c.2);
                made = made + seq![tv];
            }
        } else {
            let nl = Lot {
                time: lots[h].time.clone(),
                price: lots[h].price,
                qty: left,
                is_long: lots[h].is_long,
            };
            let ghost old_lots = lots@;
            lots.set(h, nl);
            proof {
                assert(lots@ == old_lots.update(h as int, nl));
                assert(lot_views(lots@).skip(h as int) =~= cur.update(
                    0,
                    LotView { qty: cur[0].qty - mq, ..cur[0] },
                ));
                assert(trip_views(trips@) =~= t0 + (made + seq![tv]));
                assert(rem == 0);
                let c = close_lots(lot_views(lots@).skip(h as int), rem as int, *t, sym@, sector@);
                assert(c.2 =~= Seq::<TripView>::empty());
                assert(c0.2 =~= (made + seq![tv]) + c.2);
                made = made + seq![tv];
                assert forall|k: int| h <= k < lots@.len() implies lot_ok(#[trigger] lots@[k]@) by {
                    if k == h {
                    } else {
                        assert(lots@[k] == old_lots[k]);
                    }
                }
            }
        }
    }
    proof {
        let c = close_lots(lot_views(lots@).skip(*head as int), rem as int, *t, sym@, sector@);
        assert(c.2 =~= Seq::<TripView>::empty());
        assert(made + c.2 =~= made);
    }
    rem
}


spec fn state_of(lots: Seq<Lot>, head: int, net: int, trips: Seq<RoundTrip>) -> FifoState {
    FifoState { lots: lot_views(lots).skip(head), net, trips: trip_views(trips) }
}

/// Apply one execution of the symbol to the matching state.
fn apply_trade(
    lots: &mut Vec<Lot>,
    head: &mut usize,
    net: &mut i128,
    trips: &mut Vec<RoundTrip>,
    t: &FlexTrade,
    sym: &String,
    sector: &String,
)
    requires
        *old(head) <= old(lots)@.len(),
        lots_ok_from(old(lots)@, *old(head) as int),
        trade_ok(*t),
        -0x100_0000_0000_0000_0000_0000_0000_0000 <= *old(net) <= 0x100_0000_0000_0000_0000_0000_0000_0000,
    ensures
        state_of(final(lots)@, *final(head) as int, *final(net) as int, final(trips)@) == fifo_step(
            state_of(old(lots)@, *old(head) as int, *old(net) as int, old(trips)@),
            *t,
            sym@,
            sector@,
        ),
        *final(head) <= final(lots)@.len(),
        lots_ok_from(final(lots)@, *final(head) as int),
        *old(net) - MAX_QTY <= *final(net) <= *old(net) + MAX_QTY,
{
    let ghost s0 = state_of(lots@, *head as int, *net as int, trips@);
    let qty: i64 = if t.quantity < 0 {
        -t.quantity
    } else {
        t.quantity
    };
    let buy = trade_is_buy(t);
    let signed: i128 = if buy {
        qty as i128
    } else {
        -(qty as i128)
    };
    let n = *net;
    if (n >= 0 && buy) || (n <= 0 && !buy) || n == 0 {
        let ghost old_lots = lots@;
        let lot = Lot { time: t.date_time.clone(), price: t.price, qty, is_long: buy };
        lots.push(lot);
        *net = n + signed;
        proof {
            assert(lots@ == old_lots.push(lot));
            assert(lot_views(lots@).skip(*head as int) =~= lot_views(old_lots).skip(*head as int).push(
                lot@,
            ));
            assert forall|k: int| *head <= k < lots@.len() implies lot_ok(#[trigger] lots@[k]@) by {
                if k < old_lots.len() {
                    assert(lots@[k] == old_lots[k]);
                }
            }
        }
    } else {
        let left = close_front(lots, head, qty, t, sym, sector, trips);
        if left > 0 {
            let ghost old_lots = lots@;
            let lot = Lot { time: t.date_time.clone(), price: t.price, qty: left, is_long: buy };
            lots.push(lot);
            proof {
                assert(lots@ == old_lots.push(lot));
                assert(lot_views(lots@).skip(*head as int) =~= lot_views(old_lots).skip(
                    *head as int,
                ).push(lot@));
                assert forall|k: int| *head <= k < lots@.len() implies lot_ok(#[trigger] lots@[k]@) by {
                    if k < old_lots.len() {
                        assert(lots@[k] == old_lots[k]);
                    }
                }
            }
        }
        *net = n + signed;
    }
}

/// The round trips of one symbol, its executions taken from `trades` in order.
fn match_symbol(trades: &[FlexTrade], sym: &String, sector: &String) -> (r: Vec<RoundTrip>)
    requires
        trades_ok(trades@),
    ensures
        trip_views(r@) == fifo(of_symbol(trades@, sym@), sym@, sector@).trips,
{
    let mut lots: Vec<Lot> = Vec::new();
    let mut head: usize = 0;
    let mut net: i128 = 0;
    let mut trips: Vec<RoundTrip> = Vec::new();
    let mut i: usize = 0;
    proof {
        assert(trades@.take(0) =~= Seq::<FlexTrade>::empty());
        assert(lot_views(lots@).skip(0) =~= Seq::<LotView>::empty());
        assert(trip_views(trips@) =~= Seq::<TripView>::empty());
    }
    while i < trades.len()
        invariant
            i <= trades@.len(),
            trades_ok(trades@),
            head <= lots@.len(),
            lots_ok_from(lots@, head as int),
            -(i as int) * MAX_QTY <= net <= (i as int) * MAX_QTY,
            state_of(lots@, head as int, net as int, trips@) == fifo(
                of_symbol(trades@.take(i as int), sym@),
                sym@,
                sector@,
            ),
        decreases trades.len() - i,
    {
        proof {
            assert(trades@.take(i as int + 1).drop_last() =~= trades@.take(i as int));
            assert(trades@.take(i as int + 1).last() == trades@[i as int]);
            assert(trade_ok(trades@[i as int]));
            assert(i < 0x1_0000_0000_0000_0000);
        }
        if trades[i].symbol == *sym {
            apply_trade(&mut lots, &mut head, &mut net, &mut trips, &trades[i], sym, sector);
            proof {
                let pre = of_symbol(trades@.take(i as int), sym@);
                assert(of_symbol(trades@.take(i as int + 1), sym@) == pre.push(trades@[i as int]));
                assert(pre.push(trades@[i as int]).drop_last() =~= pre);
            }
        }
        i = i + 1;
    }
    proof {
        assert(trades@.take(i as int) =~= trades@);
    }
    trips
}


/// The distinct symbols of `trades`, sorted.
fn collect_trade_symbols(trades: &[FlexTrade]) -> (r: Vec<String>)
    ensures
        is_sorted_set(views(r@), trade_symbols(trades@)),
{
    let mut syms: Vec<String> = Vec::new();
    let ghost mut seen: Set<Seq<char>> = Set::empty();
    proof {
        assert(views(syms@).to_set() =~= seen);
    }
    let n = trades.len();
    let mut i: usize = 0;
    while i < n
        invariant
            n == trades@.len(),
            i <= n,
            strictly_sorted(views(syms@)),
            views(syms@).to_set() == seen,
            forall|s: Seq<char>|
                seen.contains(s) <==> exists|k: int|
                    0 <= k < i && (#[trigger] trades@[k]).symbol@ == s,
        decreases n - i,
    {
        insert_sorted(&mut syms, &trades[i].symbol);
        proof {
            seen = seen.insert(trades@[i as int].symbol@);
            assert forall|s: Seq<char>|
                seen.contains(s) <==> exists|k: int|
                    0 <= k < i + 1 && (#[trigger] trades@[k]).symbol@ == s by {
                if seen.contains(s) && s != trades@[i as int].symbol@ {
                    let k = choose|k: int| 0 <= k < i && (#[trigger] trades@[k]).symbol@ == s;
                }
            }
        }
        i = i + 1;
    }
    proof {
        assert(seen =~= trade_symbols(trades@));
    }
    syms
}

/// Insert `x` into `sorted` after every trip that exits no later than it.
fn insert_trip(sorted: &mut Vec<RoundTrip>, x: RoundTrip)
    ensures
        trip_views(final(sorted)@) == insert_by_exit(trip_views(old(sorted)@), x@),
{
    let ghost s0 = trip_views(sorted@);
    let n = sorted.len();
    let mut k: usize = 0;
    proof {
        assert(s0.skip(0) =~= s0);
        assert(s0.take(0) =~= Seq::<TripView>::empty());
    }
    while k < n && !str_lt(x.exit_time.as_str(), sorted[k].exit_time.as_str())
        invariant
            n == sorted@.len(),
            sorted@ == old(sorted)@,
            s0 == trip_views(sorted@),
            k <= n,
            insert_by_exit(s0, x@) == s0.take(k as int) + insert_by_exit(s0.skip(k as int), x@),
        decreases n - k,
    {
        proof {
            let rest = s0.skip(k as int);
            assert(rest[0] == s0[k as int]);
            assert(rest.drop_first() =~= s0.skip(k + 1));
            assert(s0.take(k + 1) =~= s0.take(k as int).push(s0[k as int]));
            assert(insert_by_exit(rest, x@) == seq![rest[0]] + insert_by_exit(rest.drop_first(), x@));
            assert(s0.take(k as int) + (seq![rest[0]] + insert_by_exit(s0.skip(k + 1), x@))
                =~= s0.take(k + 1) + insert_by_exit(s0.skip(k + 1), x@));
        }
        k = k + 1;
    }
    let ghost xv = x@;
    let ghost xr = x;
    sorted.insert(k, x);
    proof {
        assert(sorted@ == old(sorted)@.insert(k as int, xr));
        let rest = s0.skip(k as int);
        if k < n {
            assert(rest[0] == s0[k as int]);
            assert(insert_by_exit(rest, xv) == seq![xv] + rest);
        } else {
            assert(rest =~= Seq::<TripView>::empty());
        }
        assert(trip_views(sorted@) =~= s0.take(k as int) + (seq![xv] + rest));
    }
}

/// Order trips stably by exit time.
fn sort_trips(trips: Vec<RoundTrip>) -> (r: Vec<RoundTrip>)
    ensures
        trip_views(r@) == sort_by_exit(trip_views(trips@)),
{
    let ghost all = trip_views(trips@);
    let mut src = trips;
    let mut out: Vec<RoundTrip> = Vec::new();
    let ghost mut taken: int = 0;
    // Reverse first, so that popping from the back yields the trips in their input
    // order.
    let mut rev: Vec<RoundTrip> = Vec::new();
    while src.len() > 0
        invariant
            all.len() == src@.len() + rev@.len(),
            trip_views(src@) == all.take(src@.len() as int),
            forall|j: int| 0 <= j < rev@.len() ==> #[trigger] rev@[j]@ == all[all.len() - 1 - j],
        decreases src.len(),
    {
        let ghost before = src@;
        let x = src.pop().unwrap();
        proof {
            assert(src@ == before.drop_last());
            assert(x@ == trip_views(before).last());
            assert(trip_views(src@) =~= all.take(src@.len() as int));
        }
        let ghost rev0 = rev@;
        rev.push(x);
        proof {
            assert forall|j: int| 0 <= j < rev@.len() implies #[trigger] rev@[j]@ == all[all.len() - 1 - j] by {
                if j < rev0.len() {
                    assert(rev@[j] == rev0[j]);
                }
            }
        }
    }
    proof {
        assert(sort_by_exit(all.take(0)) =~= trip_views(out@));
    }
    while rev.len() > 0
        invariant
            0 <= taken <= all.len(),
            taken + rev@.len() == all.len(),
            forall|j: int| 0 <= j < rev@.len() ==> #[trigger] rev@[j]@ == all[all.len() - 1 - j],
            trip_views(out@) == sort_by_exit(all.take(taken)),
        decreases rev.len(),
    {
        let ghost rev0 = rev@;
        let x = rev.pop().unwrap();
        proof {
            assert(rev@ == rev0.drop_last());
            assert(x@ == all[taken]);
            assert(all.take(taken + 1).drop_last() =~= all.take(taken));
            assert(all.take(taken + 1).last() == all[taken]);
        }
        insert_trip(&mut out, x);
        proof {
            taken = taken + 1;
            assert forall|j: int| 0 <= j < rev@.len() implies #[trigger] rev@[j]@ == all[all.len() - 1 - j] by {
                assert(rev@[j] == rev0[j]);
            }
        }
    }
    proof {
        assert(all.take(taken) =~= all);
    }
    out
}

/// Match a statement's executions into round trips, FIFO per symbol, ordered by exit
/// time; each trip carries its symbol's sector from `sectors`.
pub fn build_round_trips(trades: &[FlexTrade], sectors: &[(String, String)]) -> (r: Vec<RoundTrip>)
    requires
        trades_ok(trades@),
    ensures
        trip_views(r@) == round_trips_spec(trades@, sectors@),
{
    let syms = collect_trade_symbols(trades);
    let mut all: Vec<RoundTrip> = Vec::new();
    let n = syms.len();
    let mut k: usize = 0;
    proof {
        assert(views(syms@).take(0) =~= Seq::<Seq<char>>::empty());
        assert(trip_views(all@) =~= Seq::<TripView>::empty());
    }
    while k < n
        invariant
            n == syms@.len(),
            k <= n,
            trades_ok(trades@),
            trip_views(all@) == trips_for(trades@, sectors@, views(syms@).take(k as int)),
        decreases n - k,
    {
        let sector = lookup_sector(sectors, &syms[k]);
        let mut mine = match_symbol(trades, &syms[k], &sector);
        let ghost a0 = all@;
        let ghost m0 = mine@;
        all.append(&mut mine);
        proof {
            assert(all@ == a0 + m0);
            assert(trip_views(all@) =~= trip_views(a0) + trip_views(m0));
            let pre = views(syms@).take(k + 1);
            assert(pre.drop_last() =~= views(syms@).take(k as int));
            assert(pre.last() == syms@[k as int]@);
        }
        k = k + 1;
    }
    proof {
        assert(views(syms@).take(n as int) =~= views(syms@));
        let s = choose|s: Seq<Seq<char>>| is_sorted_set(s, trade_symbols(trades@));
        assert(is_sorted_set(views(syms@), trade_symbols(trades@)));
        lemma_sorted_set_unique(views(syms@), s, trade_symbols(trades@));
    }
    sort_trips(all)
}


// ── laws ─────────────────────────────────────────────────────────────────────

/// Trips in non-decreasing order of exit time.
pub open spec fn ordered_by_exit(s: Seq<TripView>) -> bool {
    forall|i: int, j: int| 0 <= i < j < s.len() ==> !seq_lt(#[trigger] s[j].exit_time, #[trigger] s[i].exit_time)
}

proof fn lemma_insert_by_exit(sorted: Seq<TripView>, x: TripView)
    requires
        ordered_by_exit(sorted),
    ensures
        ordered_by_exit(insert_by_exit(sorted, x)),
        insert_by_exit(sorted, x).to_multiset() == sorted.to_multiset().insert(x),
        forall|t: TripView| insert_by_exit(sorted, x).contains(t) ==> t == x || sorted.contains(t),
    decreases sorted.len(),
{
    broadcast use vstd::seq_lib::group_to_multiset_ensures;
    if sorted.len() == 0 {
        assert(seq![x] =~= Seq::<TripView>::empty().insert(0, x));
    } else if seq_lt(x.exit_time, sorted[0].exit_time) {
        let r = seq![x] + sorted;
        assert forall|i: int, j: int| 0 <= i < j < r.len() implies !seq_lt(#[trigger] r[j].exit_time, #[trigger] r[i].exit_time) by {
            if i == 0 {
                assert(r[j] == sorted[j - 1]);
                if seq_lt(sorted[j - 1].exit_time, x.exit_time) {
                    lemma_seq_lt_transitive(sorted[j - 1].exit_time, x.exit_time, sorted[0].exit_time);
                    if j - 1 > 0 {
                        assert(!seq_lt(sorted[j - 1].exit_time, sorted[0].exit_time));
                    } else {
                        crate::text::lemma_seq_lt_irreflexive(sorted[0].exit_time);
                    }
                }
            } else {
                assert(r[i] == sorted[i - 1] && r[j] == sorted[j - 1]);
            }
        }
        assert(r =~= sorted.insert(0, x));
        assert forall|t: TripView| r.contains(t) implies t == x || sorted.contains(t) by {
            if r.contains(t) {
                let k = choose|k: int| 0 <= k < r.len() && r[k] == t;
                if k > 0 {
                    assert(sorted[k - 1] == t);
                }
            }
        }
    } else {
        let rest = sorted.drop_first();
        assert(ordered_by_exit(rest)) by {
            assert forall|i: int, j: int| 0 <= i < j < rest.len() implies !seq_lt(#[trigger] rest[j].exit_time, #[trigger] rest[i].exit_time) by {
                assert(rest[i] == sorted[i + 1] && rest[j] == sorted[j + 1]);
            }
        }
        lemma_insert_by_exit(rest, x);
        let tail = insert_by_exit(rest, x);
        let r = seq![sorted[0]] + tail;
        assert forall|i: int, j: int| 0 <= i < j < r.len() implies !seq_lt(#[trigger] r[j].exit_time, #[trigger] r[i].exit_time) by {
            if i == 0 {
                let t = r[j];
                assert(t == tail[j - 1]);
                assert(tail.contains(t));
                if t == x {
                } else {
                    assert(rest.contains(t));
                    let k = choose|k: int| 0 <= k < rest.len() && rest[k] == t;
                    assert(sorted[k + 1] == t);
                }
            } else {
                assert(r[i] == tail[i - 1] && r[j] == tail[j - 1]);
            }
        }
        assert(sorted =~= rest.insert(0, sorted[0]));
        assert(r =~= tail.insert(0, sorted[0]));
        assert forall|t: TripView| r.contains(t) implies t == x || sorted.contains(t) by {
            let k = choose|k: int| 0 <= k < r.len() && r[k] == t;
            if k > 0 {
                assert(tail[k - 1] == t);
                assert(tail.contains(t));
                if t != x {
                    assert(rest.contains(t));
                    let m = choose|m: int| 0 <= m < rest.len() && rest[m] == t;
                    assert(sorted[m + 1] == t);
                }
            } else {
                assert(sorted[0] == t);
            }
        }
    }
}

/// The trips come out ordered by exit time, and none is lost or duplicated: the ordering
/// is a permutation of the matched trips.
pub proof fn law_trips_ordered_by_exit(s: Seq<TripView>)
    ensures
        ordered_by_exit(sort_by_exit(s)),
        sort_by_exit(s).to_multiset() == s.to_multiset(),
    decreases s.len(),
{
    broadcast use vstd::seq_lib::group_to_multiset_ensures;
    if s.len() == 0 {
    } else {
        law_trips_ordered_by_exit(s.drop_last());
        lemma_insert_by_exit(sort_by_exit(s.drop_last()), s.last());
        assert(s =~= s.drop_last().push(s.last()));
    }
}

/// Total open shares of a list of lots.
pub open spec fn open_qty(lots: Seq<LotView>) -> int
    decreases lots.len(),
{
    if lots.len() == 0 {
        0
    } else {
        lots[0].qty + open_qty(lots.drop_first())
    }
}

/// The open lots account for the net position: no lot is negative, together they hold
/// exactly the net's size, and every non-empty lot is on the net's side.
pub open spec fn lots_match_net(s: FifoState) -> bool {
    &&& forall|i: int| 0 <= i < s.lots.len() ==> (#[trigger] s.lots[i]).qty >= 0
    &&& open_qty(s.lots) == abs_int(s.net)
    &&& forall|i: int| 0 <= i < s.lots.len() && (#[trigger] s.lots[i]).qty > 0 ==> s.lots[i].is_long == (s.net > 0)
}

proof fn lemma_open_qty_push(lots: Seq<LotView>, l: LotView)
    ensures
        open_qty(lots.push(l)) == open_qty(lots) + l.qty,
    decreases lots.len(),
{
    if lots.len() > 0 {
        assert(lots.push(l).drop_first() =~= lots.drop_first().push(l));
        assert(lots.push(l)[0] == lots[0]);
        lemma_open_qty_push(lots.drop_first(), l);
    } else {
        assert(lots.push(l).drop_first() =~= Seq::<LotView>::empty());
        assert(open_qty(Seq::<LotView>::empty()) == 0);
    }
}

proof fn lemma_open_qty_zero(lots: Seq<LotView>)
    requires
        forall|i: int| 0 <= i < lots.len() ==> (#[trigger] lots[i]).qty >= 0,
    ensures
        open_qty(lots) >= 0,
        open_qty(lots) == 0 ==> forall|i: int| 0 <= i < lots.len() ==> (#[trigger] lots[i]).qty == 0,
    decreases lots.len(),
{
    if lots.len() > 0 {
        let r = lots.drop_first();
        assert forall|i: int| 0 <= i < r.len() implies (#[trigger] r[i]).qty >= 0 by {
            assert(r[i] == lots[i + 1]);
        }
        lemma_open_qty_zero(r);
        if open_qty(lots) == 0 {
            assert forall|i: int| 0 <= i < lots.len() implies (#[trigger] lots[i]).qty == 0 by {
                if i > 0 {
                    assert(lots[i] == r[i - 1]);
                }
            }
        }
    }
}

/// Closing against the lots matches `min(remaining, open)` shares, keeps the lots'
/// directions, and leaves shares unmatched only when every lot is used up.
proof fn lemma_close_lots(lots: Seq<LotView>, remaining: int, t: FlexTrade, sym: Seq<char>, sector: Seq<char>, d: bool)
    requires
        remaining >= 0,
        forall|i: int| 0 <= i < lots.len() ==> (#[trigger] lots[i]).qty >= 0,
        forall|i: int| 0 <= i < lots.len() && (#[trigger] lots[i]).qty > 0 ==> lots[i].is_long == d,
    ensures
        ({
            let c = close_lots(lots, remaining, t, sym, sector);
            let total = open_qty(lots);
            &&& forall|i: int| 0 <= i < c.0.len() ==> (#[trigger] c.0[i]).qty >= 0
            &&& forall|i: int| 0 <= i < c.0.len() && (#[trigger] c.0[i]).qty > 0 ==> c.0[i].is_long == d
            &&& c.1 == (if remaining > total {
                remaining - total
            } else {
                0
            })
            &&& open_qty(c.0) == total - (remaining - c.1)
            &&& c.1 > 0 ==> c.0.len() == 0
        }),
    decreases lots.len(),
{
    lemma_open_qty_zero(lots);
    if remaining <= 0 || lots.len() == 0 {
    } else {
        let lot = lots[0];
        let mq = if remaining < lot.qty {
            remaining
        } else {
            lot.qty
        };
        let rest = lots.drop_first();
        assert forall|i: int| 0 <= i < rest.len() implies (#[trigger] rest[i]).qty >= 0 by {
            assert(rest[i] == lots[i + 1]);
        }
        assert forall|i: int| 0 <= i < rest.len() && (#[trigger] rest[i]).qty > 0 implies rest[i].is_long == d by {
            assert(rest[i] == lots[i + 1]);
        }
        lemma_open_qty_zero(rest);
        if lot.qty - mq <= 0 {
            lemma_close_lots(rest, remaining - mq, t, sym, sector, d);
        } else {
            let upd = lots.update(0, LotView { qty: lot.qty - mq, ..lot });
            assert(upd.drop_first() =~= rest);
            assert forall|i: int| 0 <= i < upd.len() && (#[trigger] upd[i]).qty > 0 implies upd[i].is_long == d by {
                if i > 0 {
                    assert(upd[i] == lots[i]);
                }
            }
        }
    }
}

/// FIFO matching never loses or invents shares: after every execution the open lots
/// hold exactly the symbol's net position, all on its side.
pub proof fn law_open_lots_match_net(trades: Seq<FlexTrade>, sym: Seq<char>, sector: Seq<char>)
    requires
        forall|i: int| 0 <= i < trades.len() ==> -MAX_QTY <= (#[trigger] trades[i]).quantity <= MAX_QTY,
    ensures
        lots_match_net(fifo(trades, sym, sector)),
    decreases trades.len(),
{
    if trades.len() > 0 {
        let pre = trades.drop_last();
        assert forall|i: int| 0 <= i < pre.len() implies -MAX_QTY <= (#[trigger] pre[i]).quantity <= MAX_QTY by {
            assert(pre[i] == trades[i]);
        }
        law_open_lots_match_net(pre, sym, sector);
        let s = fifo(pre, sym, sector);
        let t = trades.last();
        let qty = abs_int(t.quantity as int);
        let buy = is_buy(t);
        let signed = if buy {
            qty
        } else {
            -qty
        };
        let lot = LotView { time: t.date_time@, price: t.price as int, qty, is_long: buy };
        lemma_open_qty_zero(s.lots);
        if (s.net >= 0 && buy) || (s.net <= 0 && !buy) || s.net == 0 {
            let n = fifo_step(s, t, sym, sector);
            lemma_open_qty_push(s.lots, lot);
            assert forall|i: int| 0 <= i < n.lots.len() implies (#[trigger] n.lots[i]).qty >= 0 by {
                if i < s.lots.len() {
                    assert(n.lots[i] == s.lots[i]);
                }
            }
            assert forall|i: int| 0 <= i < n.lots.len() && (#[trigger] n.lots[i]).qty > 0 implies n.lots[i].is_long == (n.net > 0) by {
                if i < s.lots.len() {
                    assert(n.lots[i] == s.lots[i]);
                }
            }
        } else {
            let d = s.net > 0;
            lemma_close_lots(s.lots, qty, t, sym, sector, d);
            let c = close_lots(s.lots, qty, t, sym, sector);
            let n = fifo_step(s, t, sym, sector);
            if c.1 > 0 {
                let nl = LotView { qty: c.1, ..lot };
                lemma_open_qty_push(c.0, nl);
                assert(n.lots == c.0.push(nl));
                assert forall|i: int| 0 <= i < n.lots.len() implies (#[trigger] n.lots[i]).qty >= 0 by {
                    assert(i == 0);
                }
                assert forall|i: int| 0 <= i < n.lots.len() && (#[trigger] n.lots[i]).qty > 0 implies n.lots[i].is_long == (n.net > 0) by {
                    assert(i == 0);
                }
            } else {
                lemma_open_qty_zero(c.0);
            }
        }
    }
}


// ── every trip is sound ──────────────────────────────────────────────────────

/// A trip of a positive share count, long or short, whose profit is the price move in
/// its favour times its shares (to a money unit, toward zero), filed under `sym` and
/// `sector`.
pub open spec fn trip_sound(x: TripView, sym: Seq<char>, sector: Seq<char>) -> bool {
    &&& x.qty > 0
    &&& x.symbol == sym
    &&& x.sector == sector
    &&& (x.side == "Long"@ || x.side == "Short"@)
    &&& x.pnl == trunc_div(
        (if x.side == "Long"@ {
            x.exit_price - x.entry_price
        } else {
            x.entry_price - x.exit_price
        }) * x.qty,
        PRICE_SCALE as int,
    )
}

pub open spec fn lots_positive(lots: Seq<LotView>) -> bool {
    forall|i: int| 0 <= i < lots.len() ==> (#[trigger] lots[i]).qty > 0
}

pub open spec fn trips_sound(trips: Seq<TripView>, sym: Seq<char>, sector: Seq<char>) -> bool {
    forall|k: int| 0 <= k < trips.len() ==> trip_sound(#[trigger] trips[k], sym, sector)
}

proof fn lemma_trip_of_sound(sym: Seq<char>, sector: Seq<char>, lot: LotView, t: FlexTrade, mq: int)
    requires
        mq > 0,
    ensures
        trip_sound(trip_of(sym, sector, lot, t, mq), sym, sector),
{
    reveal_strlit("Long");
    reveal_strlit("Short");
    assert("Long"@ != "Short"@) by {
        assert("Long"@.len() != "Short"@.len());
    }
}

proof fn lemma_close_lots_sound(lots: Seq<LotView>, remaining: int, t: FlexTrade, sym: Seq<char>, sector: Seq<char>)
    requires
        lots_positive(lots),
    ensures
        lots_positive(close_lots(lots, remaining, t, sym, sector).0),
        trips_sound(close_lots(lots, remaining, t, sym, sector).2, sym, sector),
    decreases lots.len(),
{
    if remaining <= 0 || lots.len() == 0 {
    } else {
        let lot = lots[0];
        let mq = if remaining < lot.qty {
            remaining
        } else {
            lot.qty
        };
        lemma_trip_of_sound(sym, sector, lot, t, mq);
        let trip = trip_of(sym, sector, lot, t, mq);
        if lot.qty - mq <= 0 {
            let rest = lots.drop_first();
            assert(lots_positive(rest)) by {
                assert forall|i: int| 0 <= i < rest.len() implies (#[trigger] rest[i]).qty > 0 by {
                    assert(rest[i] == lots[i + 1]);
                }
            }
            lemma_close_lots_sound(rest, remaining - mq, t, sym, sector);
            let r = close_lots(rest, remaining - mq, t, sym, sector);
            assert forall|k: int| 0 <= k < (seq![trip] + r.2).len() implies trip_sound(#[trigger] (seq![trip] + r.2)[k], sym, sector) by {
                if k > 0 {
                    assert((seq![trip] + r.2)[k] == r.2[k - 1]);
                }
            }
        } else {
            let upd = lots.update(0, LotView { qty: lot.qty - mq, ..lot });
            assert forall|i: int| 0 <= i < upd.len() implies (#[trigger] upd[i]).qty > 0 by {}
            assert forall|k: int| 0 <= k < seq![trip].len() implies trip_sound(#[trigger] seq![trip][k], sym, sector) by {}
        }
    }
}

proof fn lemma_fifo_sound(trades: Seq<FlexTrade>, sym: Seq<char>, sector: Seq<char>)
    requires
        forall|i: int| 0 <= i < trades.len() ==> (#[trigger] trades[i]).quantity != 0,
    ensures
        lots_positive(fifo(trades, sym, sector).lots),
        trips_sound(fifo(trades, sym, sector).trips, sym, sector),
    decreases trades.len(),
{
    if trades.len() > 0 {
        let pre = trades.drop_last();
        assert forall|i: int| 0 <= i < pre.len() implies (#[trigger] pre[i]).quantity != 0 by {
            assert(pre[i] == trades[i]);
        }
        lemma_fifo_sound(pre, sym, sector);
        let st = fifo(pre, sym, sector);
        let t = trades.last();
        assert(t == trades[trades.len() - 1]);
        let qty = abs_int(t.quantity as int);
        let buy = is_buy(t);
        let lot = LotView { time: t.date_time@, price: t.price as int, qty, is_long: buy };
        let n = fifo_step(st, t, sym, sector);
        if (st.net >= 0 && buy) || (st.net <= 0 && !buy) || st.net == 0 {
            assert forall|i: int| 0 <= i < n.lots.len() implies (#[trigger] n.lots[i]).qty > 0 by {
                if i < st.lots.len() {
                    assert(n.lots[i] == st.lots[i]);
                }
            }
        } else {
            lemma_close_lots_sound(st.lots, qty, t, sym, sector);
            let c = close_lots(st.lots, qty, t, sym, sector);
            assert forall|i: int| 0 <= i < n.lots.len() implies (#[trigger] n.lots[i]).qty > 0 by {
                if i < c.0.len() {
                    assert(n.lots[i] == c.0[i]);
                }
            }
            assert forall|k: int| 0 <= k < n.trips.len() implies trip_sound(#[trigger] n.trips[k], sym, sector) by {
                if k < st.trips.len() {
                    assert(n.trips[k] == st.trips[k]);
                } else {
                    assert(n.trips[k] == c.2[k - st.trips.len()]);
                }
            }
        }
    }
}

proof fn lemma_of_symbol_from(trades: Seq<FlexTrade>, sym: Seq<char>)
    ensures
        forall|k: int| 0 <= k < of_symbol(trades, sym).len() ==> trades.contains(#[trigger] of_symbol(trades, sym)[k]),
    decreases trades.len(),
{
    if trades.len() > 0 {
        let pre = trades.drop_last();
        lemma_of_symbol_from(pre, sym);
        let o = of_symbol(trades, sym);
        assert forall|k: int| 0 <= k < o.len() implies trades.contains(#[trigger] o[k]) by {
            let op = of_symbol(pre, sym);
            if k < op.len() {
                assert(o[k] == op[k]);
                let m = choose|m: int| 0 <= m < pre.len() && pre[m] == op[k];
                assert(trades[m] == o[k]);
            } else {
                assert(trades[trades.len() - 1] == o[k]);
            }
        }
    }
}

proof fn lemma_trips_for_sound(trades: Seq<FlexTrade>, sectors: Seq<(String, String)>, syms: Seq<Seq<char>>)
    requires
        forall|i: int| 0 <= i < trades.len() ==> (#[trigger] trades[i]).quantity != 0,
    ensures
        forall|k: int| 0 <= k < trips_for(trades, sectors, syms).len() ==> trip_sound(
            #[trigger] trips_for(trades, sectors, syms)[k],
            trips_for(trades, sectors, syms)[k].symbol,
            sector_of(sectors, trips_for(trades, sectors, syms)[k].symbol),
        ),
    decreases syms.len(),
{
    if syms.len() > 0 {
        let sym = syms.last();
        lemma_trips_for_sound(trades, sectors, syms.drop_last());
        let os = of_symbol(trades, sym);
        lemma_of_symbol_from(trades, sym);
        assert forall|i: int| 0 <= i < os.len() implies (#[trigger] os[i]).quantity != 0 by {
            let m = choose|m: int| 0 <= m < trades.len() && trades[m] == os[i];
        }
        lemma_fifo_sound(os, sym, sector_of(sectors, sym));
        let a = trips_for(trades, sectors, syms.drop_last());
        let b = fifo(os, sym, sector_of(sectors, sym)).trips;
        let r = trips_for(trades, sectors, syms);
        assert(r == a + b);
        assert forall|k: int| 0 <= k < r.len() implies trip_sound(#[trigger] r[k], r[k].symbol, sector_of(sectors, r[k].symbol)) by {
            if k < a.len() {
                assert(r[k] == a[k]);
            } else {
                assert(r[k] == b[k - a.len()]);
            }
        }
    }
}

/// Every round trip of a statement whose executions all move shares is sound: a positive
/// share count, long or short, profit equal to the price move in its favour times its
/// shares (to a money unit, toward zero), and the sector recorded for its symbol.
pub proof fn law_trips_are_sound(trades: Seq<FlexTrade>, sectors: Seq<(String, String)>)
    requires
        forall|i: int| 0 <= i < trades.len() ==> (#[trigger] trades[i]).quantity != 0,
    ensures
        forall|k: int| 0 <= k < round_trips_spec(trades, sectors).len() ==> trip_sound(
            #[trigger] round_trips_spec(trades, sectors)[k],
            round_trips_spec(trades, sectors)[k].symbol,
            sector_of(sectors, round_trips_spec(trades, sectors)[k].symbol),
        ),
{
    broadcast use vstd::seq_lib::group_to_multiset_ensures;
    let all = trips_for(trades, sectors, symbol_order(trades));
    lemma_trips_for_sound(trades, sectors, symbol_order(trades));
    law_trips_ordered_by_exit(all);
    let r = round_trips_spec(trades, sectors);
    assert forall|k: int| 0 <= k < r.len() implies trip_sound(#[trigger] r[k], r[k].symbol, sector_of(sectors, r[k].symbol)) by {
        assert(r.to_multiset().count(r[k]) > 0);
        assert(all.to_multiset().count(r[k]) > 0);
        assert(all.contains(r[k]));
        let m = choose|m: int| 0 <= m < all.len() && all[m] == r[k];
    }
}
} // verus!
