//! Core domain models shared between master and client.
//!
//! Quantities are whole shares (`i64`, signed: positive is long). Prices and money are
//! fixed-point integers: one unit is `1 / PRICE_SCALE` of the currency, so `$100.02` is
//! `1_000_200`.

use vstd::prelude::*;

use crate::text::{decimal, push_decimal, push_signed_decimal, signed_decimal, trim, trim_str,
    to_uppercase, uppercase, zero_padded};

verus! {

/// Fixed-point scale of every price and money amount: units per whole currency unit.
pub const PRICE_SCALE: i64 = 10_000;

/// Largest absolute share count the engine deals in.
pub const MAX_QTY: i64 = 1_000_000_000_000_000;

/// Order side.
#[derive(Debug, Clone, Copy, PartialEq, Eq, Structural)]
pub enum Side {
    Buy,
    Sell,
}

/// The IBKR action string of a side.
pub open spec fn side_ib(s: Side) -> Seq<char> {
    match s {
        Side::Buy => "BUY"@,
        Side::Sell => "SELL"@,
    }
}

impl Side {
    /// The IBKR action string.
    pub fn as_ib(self) -> (r: &'static str)
        ensures
            r@ == side_ib(self),
    {
        match self {
            Side::Buy => "BUY",
            Side::Sell => "SELL",
        }
    }

    /// The side that reduces / closes a position of the given signed quantity.
    pub fn closing(signed_qty: i64) -> (r: Side)
        ensures
            r == (if signed_qty > 0 {
                Side::Sell
            } else {
                Side::Buy
            }),
    {
        if signed_qty > 0 {
            Side::Sell
        } else {
            Side::Buy
        }
    }

    /// The side that moves a position in the direction of `delta`.
    pub fn from_delta(delta: i64) -> (r: Side)
        ensures
            r == (if delta >= 0 {
                Side::Buy
            } else {
                Side::Sell
            }),
    {
        if delta >= 0 {
            Side::Buy
        } else {
            Side::Sell
        }
    }
}

/// Order type, mirrored from the master where possible.
#[derive(Debug, Clone, Copy, PartialEq, Eq, Structural)]
pub enum OrderKind {
    Market,
    Limit,
    Stop,
    StopLimit,
}

impl Default for OrderKind {
    fn default() -> (r: OrderKind)
        ensures
            r == OrderKind::Market,
    {
        OrderKind::Market
    }
}

/// The IBKR order-type string of a kind.
pub open spec fn kind_ib(k: OrderKind) -> Seq<char> {
    match k {
        OrderKind::Market => "MKT"@,
        OrderKind::Limit => "LMT"@,
        OrderKind::Stop => "STP"@,
        OrderKind::StopLimit => "STP LMT"@,
    }
}

/// The kind an IBKR order-type string names: the string is trimmed and upper-cased first;
/// anything unrecognised is a market order.
pub open spec fn kind_from_ib(s: Seq<char>) -> OrderKind {
    kind_from_upper(uppercase(trim(s)))
}

/// The order kind an upper-case, trimmed IBKR order-type string names.
pub open spec fn kind_from_upper(u: Seq<char>) -> OrderKind {
    if u == "LMT"@ {
        OrderKind::Limit
    } else if u == "STP"@ {
        OrderKind::Stop
    } else if u == "STP LMT"@ || u == "STPLMT"@ {
        OrderKind::StopLimit
    } else {
        OrderKind::Market
    }
}

/// The order kind of an upper-case, trimmed IBKR order-type string; anything unknown is
/// Market.
pub fn kind_of_upper(u: &str) -> (r: OrderKind)
    ensures
        r == kind_from_upper(u@),
{
    let u = u.to_string();
    let lmt = String::from_str("LMT");
    let stp = String::from_str("STP");
    let stp_lmt = String::from_str("STP LMT");
    let stplmt = String::from_str("STPLMT");
    if u == lmt {
        OrderKind::Limit
    } else if u == stp {
        OrderKind::Stop
    } else if u == stp_lmt || u == stplmt {
        OrderKind::StopLimit
    } else {
        OrderKind::Market
    }
}

impl OrderKind {
    /// Parse from an IBKR order-type string. Unknown types fall back to Market.
    pub fn from_ib(s: &str) -> (r: OrderKind)
        ensures
            r == kind_from_ib(s@),
    {
        let u = to_uppercase(trim_str(s));
        kind_of_upper(u.as_str())
    }

    /// The IBKR order-type string.
    pub fn as_ib(self) -> (r: &'static str)
        ensures
            r@ == kind_ib(self),
    {
        match self {
            OrderKind::Market => "MKT",
            OrderKind::Limit => "LMT",
            OrderKind::Stop => "STP",
            OrderKind::StopLimit => "STP LMT",
        }
    }
}

/// The currency a position or order carries when none is given.
pub fn default_currency() -> (r: String)
    ensures
        r@ == "USD"@,
{
    String::from_str("USD")
}

/// The exchange a position or order is routed to when none is given.
pub fn default_exchange() -> (r: String)
    ensures
        r@ == "SMART"@,
{
    String::from_str("SMART")
}

/// A net position in a single instrument.
///
/// `net_qty` is **signed**: positive is long, negative is short. This is the unit of
/// truth for reconciliation — never an order action.
#[derive(Debug)]
pub struct Position {
    pub symbol: String,
    pub currency: String,
    pub exchange: String,
    pub net_qty: i64,
    /// Average cost per share (fixed-point).
    pub avg_cost: i64,
    /// Hint of the order type last seen for this symbol on the master.
    pub order_kind: OrderKind,
    /// Limit price (fixed-point).
    pub limit_price: i64,
    /// Auxiliary (stop) price (fixed-point).
    pub aux_price: i64,
}

impl Clone for Position {
    fn clone(&self) -> (r: Self)
        ensures
            r == *self,
    {
        Position {
            symbol: self.symbol.clone(),
            currency: self.currency.clone(),
            exchange: self.exchange.clone(),
            net_qty: self.net_qty,
            avg_cost: self.avg_cost,
            order_kind: self.order_kind,
            limit_price: self.limit_price,
            aux_price: self.aux_price,
        }
    }
}

/// The mathematical content of a [`Position`].
pub struct PositionView {
    pub symbol: Seq<char>,
    pub currency: Seq<char>,
    pub exchange: Seq<char>,
    pub net_qty: int,
    pub avg_cost: int,
    pub order_kind: OrderKind,
    pub limit_price: int,
    pub aux_price: int,
}

impl View for Position {
    type V = PositionView;

    open spec fn view(&self) -> PositionView {
        PositionView {
            symbol: self.symbol@,
            currency: self.currency@,
            exchange: self.exchange@,
            net_qty: self.net_qty as int,
            avg_cost: self.avg_cost as int,
            order_kind: self.order_kind,
            limit_price: self.limit_price as int,
            aux_price: self.aux_price as int,
        }
    }
}

impl Position {
    /// A quantity within the range the engine deals in.
    pub open spec fn wf(&self) -> bool {
        -MAX_QTY <= self.net_qty <= MAX_QTY
    }

    /// A market-hinted position in `symbol` with default currency and exchange.
    pub fn new(symbol: &str, net_qty: i64) -> (r: Position)
        ensures
            r.symbol@ == symbol@,
            r.currency@ == "USD"@,
            r.exchange@ == "SMART"@,
            r.net_qty == net_qty,
            r.avg_cost == 0,
            r.order_kind == OrderKind::Market,
            r.limit_price == 0,
            r.aux_price == 0,
    {
        Position {
            symbol: symbol.to_owned(),
            currency: default_currency(),
            exchange: default_exchange(),
            net_qty,
            avg_cost: 0,
            order_kind: OrderKind::Market,
            limit_price: 0,
            aux_price: 0,
        }
    }

    pub fn is_long(&self) -> (r: bool)
        ensures
            r == (self.net_qty > 0),
    {
        self.net_qty > 0
    }

    pub fn is_short(&self) -> (r: bool)
        ensures
            r == (self.net_qty < 0),
    {
        self.net_qty < 0
    }
}

/// A resting (working) order the master has live in TWS — a limit, stop, or stop-limit
/// the client should mirror with the same type and prices, scaled to the client.
///
/// `is_entry` is computed by the master relative to its own position: an *entry* order
/// opens or adds exposure, whereas a non-entry order is protective (a stop/limit that
/// closes part of an existing position).
#[derive(Debug)]
pub struct WorkingOrder {
    pub symbol: String,
    pub currency: String,
    pub exchange: String,
    pub side: Side,
    /// Order quantity in shares (positive).
    pub quantity: i64,
    /// Limit / Stop / StopLimit (never Market — those don't rest).
    pub kind: OrderKind,
    /// Limit price (fixed-point).
    pub limit_price: i64,
    /// Auxiliary (stop) price (fixed-point).
    pub aux_price: i64,
    pub is_entry: bool,
}

impl Clone for WorkingOrder {
    fn clone(&self) -> (r: Self)
        ensures
            r == *self,
    {
        WorkingOrder {
            symbol: self.symbol.clone(),
            currency: self.currency.clone(),
            exchange: self.exchange.clone(),
            side: self.side,
            quantity: self.quantity,
            kind: self.kind,
            limit_price: self.limit_price,
            aux_price: self.aux_price,
            is_entry: self.is_entry,
        }
    }
}

/// Signed quantity of an order: positive for buys, negative for sells.
pub open spec fn signed_qty_of(w: WorkingOrder) -> int {
    match w.side {
        Side::Buy => w.quantity as int,
        Side::Sell => -(w.quantity as int),
    }
}

/// A fixed-point amount rendered with four decimals (as `{:.4}` renders the amount).
pub open spec fn fixed4(t: int) -> Seq<char> {
    let a = if t < 0 {
        -t
    } else {
        t
    };
    (if t < 0 {
        seq!['-']
    } else {
        Seq::<char>::empty()
    }) + decimal((a / 10000) as nat) + seq!['.'] + zero_padded((a % 10000) as nat, 4)
}

/// The identity string of a working order.
pub open spec fn order_key(w: WorkingOrder) -> Seq<char> {
    w.symbol@ + "|"@ + side_ib(w.side) + "|"@ + kind_ib(w.kind) + "|"@ + signed_decimal(
        w.quantity as int,
    ) + "|"@ + fixed4(w.limit_price as int) + "|"@ + fixed4(w.aux_price as int)
}

/// Append `t` rendered with four decimals.
pub fn push_fixed4(out: &mut String, t: i64)
    ensures
        final(out)@ == old(out)@ + fixed4(t as int),
{
    let a: u64 = if t < 0 {
        if t == i64::MIN {
            9223372036854775808u64
        } else {
            (-t) as u64
        }
    } else {
        t as u64
    };
    let ghost start = out@;
    if t < 0 {
        out.append("-");
        proof {
            reveal_strlit("-");
        }
    }
    let ghost signed = out@;
    push_decimal(out, a / 10000);
    out.append(".");
    proof {
        reveal_strlit(".");
    }
    let frac = a % 10000;
    let ghost before_pad = out@;
    if frac < 1000 {
        out.append("0");
    }
    if frac < 100 {
        out.append("0");
    }
    if frac < 10 {
        out.append("0");
    }
    proof {
        reveal_strlit("0");
    }
    let ghost zeros = out@;
    push_decimal(out, frac);
    proof {
        assert(a as int == (if t < 0 { -(t as int) } else { t as int }));
        let d = decimal(frac as nat);
        crate::text::lemma_decimal_nonempty(frac as nat);
        lemma_decimal_len4(frac as nat);
        let pad = zero_padded(frac as nat, 4);
        if frac < 10 {
            assert(d.len() == 1);
        } else if frac < 100 {
            assert(d.len() == 2);
        } else if frac < 1000 {
            assert(d.len() == 3);
        } else {
            assert(d.len() == 4);
        }
        assert(zeros + d =~= before_pad + pad);
        assert(signed =~= start + (if t < 0 {
            seq!['-']
        } else {
            Seq::<char>::empty()
        }));
        assert(out@ =~= old(out)@ + fixed4(t as int));
    }
}

/// Number of decimal digits of values below ten thousand.
proof fn lemma_decimal_len4(n: nat)
    requires
        n < 10000,
    ensures
        n < 10 ==> decimal(n).len() == 1,
        10 <= n < 100 ==> decimal(n).len() == 2,
        100 <= n < 1000 ==> decimal(n).len() == 3,
        1000 <= n ==> decimal(n).len() == 4,
{
    if n >= 10 {
        assert(decimal(n) == decimal(n / 10).push(crate::text::digit_char(n % 10)));
        if n >= 100 {
            assert(decimal(n / 10) == decimal(n / 100).push(crate::text::digit_char((n / 10) % 10)));
            if n >= 1000 {
                assert(decimal(n / 100) == decimal(n / 1000).push(
                    crate::text::digit_char((n / 100) % 10),
                ));
            }
        }
    }
}

impl WorkingOrder {
    /// Signed quantity: positive for buys, negative for sells.
    pub fn signed_qty(&self) -> (r: i64)
        requires
            self.quantity > i64::MIN,
        ensures
            r == signed_qty_of(*self),
    {
        match self.side {
            Side::Buy => self.quantity,
            Side::Sell => -self.quantity,
        }
    }

    /// Stable identity for matching a client mirror order to a desired order. Includes
    /// quantity and prices so a change in any of them changes the key.
    pub fn key(&self) -> (r: String)
        ensures
            r@ == order_key(*self),
    {
        let mut s = self.symbol.clone();
        proof {
            reveal_strlit("|");
        }
        s.append("|");
        s.append(self.side.as_ib());
        s.append("|");
        s.append(self.kind.as_ib());
        s.append("|");
        push_signed_decimal(&mut s, self.quantity);
        s.append("|");
        push_fixed4(&mut s, self.limit_price);
        s.append("|");
        push_fixed4(&mut s, self.aux_price);
        proof {
            assert(s@ =~= order_key(*self));
        }
        s
    }
}

} // verus!
