//! Per-symbol spacing of orders: after an order is placed for a symbol, no other order
//! for it goes out until the cooldown has passed; after a rejection, the same symbol and
//! side back off for a while. Times are milliseconds of the wall clock, passed in.

use vstd::prelude::*;

use crate::book::{book_find, book_put, find_key, keys_sorted, Keyed};
use crate::model::Side;

verus! {

/// When something last happened for a key.
pub struct Stamp {
    pub key: String,
    pub at_ms: u64,
}

impl Keyed for Stamp {
    open spec fn key_view(&self) -> Seq<char> {
        self.key@
    }

    fn key_str(&self) -> (r: &str) {
        self.key.as_str()
    }
}

/// Whether `key` is still cooling down at `now`: something happened for it less than
/// `window` before `now` (or, with the clock set back, after `now`).
pub open spec fn cooling(c: Map<Seq<char>, int>, key: Seq<char>, now: int, window: int) -> bool {
    c.contains_key(key) && now < c[key] + window
}

/// The last time something happened for each key, one entry per key.
pub struct Cooldowns {
    stamps: Vec<Stamp>,
}

impl View for Cooldowns {
    type V = Map<Seq<char>, int>;

    closed spec fn view(&self) -> Map<Seq<char>, int> {
        Map::new(
            |k: Seq<char>| find_key(self.stamps@, k) is Some,
            |k: Seq<char>| find_key(self.stamps@, k)->Some_0.at_ms as int,
        )
    }
}

impl Cooldowns {
    /// The entries are kept one per key, in key order.
    pub closed spec fn wf(&self) -> bool {
        keys_sorted(self.stamps@)
    }

    /// Nothing has happened yet.
    pub fn new() -> (r: Self)
        ensures
            r.wf(),
            r@ == Map::<Seq<char>, int>::empty(),
    {
        let r = Cooldowns { stamps: Vec::new() };
        proof {
            assert(r@ =~= Map::<Seq<char>, int>::empty());
        }
        r
    }

    /// When something last happened for `key`.
    pub fn last(&self, key: &str) -> (r: Option<u64>)
        requires
            self.wf(),
        ensures
            match r {
                Some(t) => self@.contains_key(key@) && self@[key@] == t as int,
                None => !self@.contains_key(key@),
            },
    {
        match book_find(&self.stamps, key) {
            Some(i) => Some(self.stamps[i].at_ms),
            None => None,
        }
    }

    /// Whether `key` is cooling down at `now_ms`.
    pub fn cooling_down(&self, key: &str, now_ms: u64, window_ms: u64) -> (r: bool)
        requires
            self.wf(),
        ensures
            r == cooling(self@, key@, now_ms as int, window_ms as int),
    {
        match self.last(key) {
            Some(t) => now_ms < t || now_ms - t < window_ms,
            None => false,
        }
    }

    /// Note that something happened for `key` at `now_ms`; every other key is untouched.
    pub fn record(&mut self, key: &str, now_ms: u64)
        requires
            old(self).wf(),
        ensures
            final(self).wf(),
            final(self)@ == old(self)@.insert(key@, now_ms as int),
    {
        let ghost before = self@;
        book_put(&mut self.stamps, Stamp { key: key.to_string(), at_ms: now_ms });
        proof {
            assert(self@ =~= before.insert(key@, now_ms as int));
        }
    }
}

/// Rejection back-off, kept per symbol and side.
pub struct Backoffs {
    pub buy: Cooldowns,
    pub sell: Cooldowns,
}

/// The back-off times of one side.
pub open spec fn side_map(b: (Map<Seq<char>, int>, Map<Seq<char>, int>), side: Side) -> Map<Seq<char>, int> {
    match side {
        Side::Buy => b.0,
        Side::Sell => b.1,
    }
}

/// The other side.
pub open spec fn other_side(side: Side) -> Side {
    match side {
        Side::Buy => Side::Sell,
        Side::Sell => Side::Buy,
    }
}

impl View for Backoffs {
    type V = (Map<Seq<char>, int>, Map<Seq<char>, int>);

    open spec fn view(&self) -> (Map<Seq<char>, int>, Map<Seq<char>, int>) {
        (self.buy@, self.sell@)
    }
}

impl Backoffs {
    pub open spec fn wf(&self) -> bool {
        self.buy.wf() && self.sell.wf()
    }

    /// No rejection yet.
    pub fn new() -> (r: Self)
        ensures
            r.wf(),
            r@.0 == Map::<Seq<char>, int>::empty(),
            r@.1 == Map::<Seq<char>, int>::empty(),
    {
        Backoffs { buy: Cooldowns::new(), sell: Cooldowns::new() }
    }

    /// Whether orders of `side` for `symbol` are backing off at `now_ms`.
    pub fn backing_off(&self, symbol: &str, side: Side, now_ms: u64, window_ms: u64) -> (r: bool)
        requires
            self.wf(),
        ensures
            r == cooling(side_map(self@, side), symbol@, now_ms as int, window_ms as int),
    {
        match side {
            Side::Buy => self.buy.cooling_down(symbol, now_ms, window_ms),
            Side::Sell => self.sell.cooling_down(symbol, now_ms, window_ms),
        }
    }

    /// Note a rejection of a `side` order for `symbol` at `now_ms`; the other side and
    /// every other symbol are untouched.
    pub fn record_reject(&mut self, symbol: &str, side: Side, now_ms: u64)
        requires
            old(self).wf(),
        ensures
            final(self).wf(),
            side_map(final(self)@, side) == side_map(old(self)@, side).insert(symbol@, now_ms as int),
            side_map(final(self)@, other_side(side)) == side_map(old(self)@, other_side(side)),
    {
        match side {
            Side::Buy => self.buy.record(symbol, now_ms),
            Side::Sell => self.sell.record(symbol, now_ms),
        }
    }
}

/// Orders for one symbol are spaced by the cooldown: once a placement at `placed_ms` is
/// recorded, the symbol cools down until `placed_ms + window_ms`, so the next placement —
/// made only when it is not cooling down — comes at least `window_ms` later. Other
/// symbols are not held by it.
pub proof fn law_cooldown_spacing(c: Map<Seq<char>, int>, symbol: Seq<char>, placed_ms: int, next_ms: int, window_ms: int, other: Seq<char>)
    requires
        placed_ms <= next_ms,
        other != symbol,
    ensures
        !cooling(c.insert(symbol, placed_ms), symbol, next_ms, window_ms) ==> next_ms >= placed_ms + window_ms,
        next_ms < placed_ms + window_ms ==> cooling(c.insert(symbol, placed_ms), symbol, next_ms, window_ms),
        cooling(c.insert(symbol, placed_ms), other, next_ms, window_ms) == cooling(c, other, next_ms, window_ms),
{
}

} // verus!
