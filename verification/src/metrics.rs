//! The exact aggregates of a performance report: trade statistics over round trips,
//! per-symbol and per-sector profit, drawdown over the NAV series, and month-by-month
//! NAV bases. Ratios and annualised figures are derived from these.

use vstd::prelude::*;

use crate::analytics::{date_spec, date_text_ok, days_between, days_between_spec, parse_date};
use crate::model::MAX_QTY;
use crate::round_trips::{trip_views, RoundTrip, TripView, MAX_TRADE_PRICE};
use crate::text::{lemma_seq_lt_asymmetric, lemma_seq_lt_irreflexive, lemma_seq_lt_total,
    lemma_seq_lt_transitive, seq_lt, str_eq, str_lt};
use vstd::string::StringSliceAdditionalSpecFns;

verus! {

/// Largest absolute profit of one round trip the aggregates are sized for.
pub open spec fn pnl_limit() -> int {
    20_000_000_000_000_000_000_000_000_000
}

/// A round trip within the sizes the aggregates are proved for.
pub open spec fn trip_ok(t: TripView) -> bool {
    &&& -pnl_limit() <= t.pnl <= pnl_limit()
    &&& -0x1_0000_0000_0000_0000 <= t.holding_days <= 0x1_0000_0000_0000_0000
    &&& -0x1_0000_0000_0000_0000 <= t.commission <= 0x1_0000_0000_0000_0000
}

/// `f` summed over `s`.
pub open spec fn sum_by(s: Seq<TripView>, f: spec_fn(TripView) -> int) -> int
    decreases s.len(),
{
    if s.len() == 0 {
        0
    } else {
        sum_by(s.drop_last(), f) + f(s.last())
    }
}

pub open spec fn win_count(t: TripView) -> int {
    if t.pnl > 0 {
        1
    } else {
        0
    }
}

pub open spec fn loss_count(t: TripView) -> int {
    if t.pnl <= 0 {
        1
    } else {
        0
    }
}

pub open spec fn profit_part(t: TripView) -> int {
    if t.pnl > 0 {
        t.pnl
    } else {
        0
    }
}

pub open spec fn loss_part(t: TripView) -> int {
    if t.pnl <= 0 {
        -t.pnl
    } else {
        0
    }
}

pub open spec fn pnl_of(t: TripView) -> int {
    t.pnl
}

pub open spec fn long_part(t: TripView) -> int {
    if t.side == "Long"@ {
        t.pnl
    } else {
        0
    }
}

pub open spec fn short_part(t: TripView) -> int {
    if t.side == "Short"@ {
        t.pnl
    } else {
        0
    }
}

pub open spec fn days_of(t: TripView) -> int {
    t.holding_days
}

pub open spec fn commission_of(t: TripView) -> int {
    t.commission
}

/// The largest profit in `s` (0 for no trips).
pub open spec fn best_of(s: Seq<TripView>) -> int
    decreases s.len(),
{
    if s.len() == 0 {
        0
    } else if s.len() == 1 {
        s[0].pnl
    } else {
        let b = best_of(s.drop_last());
        if s.last().pnl > b {
            s.last().pnl
        } else {
            b
        }
    }
}

/// The smallest profit in `s` (0 for no trips).
pub open spec fn worst_of(s: Seq<TripView>) -> int
    decreases s.len(),
{
    if s.len() == 0 {
        0
    } else if s.len() == 1 {
        s[0].pnl
    } else {
        let w = worst_of(s.drop_last());
        if s.last().pnl < w {
            s.last().pnl
        } else {
            w
        }
    }
}

/// Profit totals of one key (a symbol or a sector).
#[derive(Debug)]
pub struct KeyedPnl {
    pub key: String,
    pub pnl: i128,
}

/// Exact trade statistics over a list of round trips.
#[derive(Debug)]
pub struct TradeStats {
    pub total_trades: usize,
    pub winners: usize,
    pub losers: usize,
    /// Sum of the profits of the winners.
    pub gross_profit: i128,
    /// Sum of the absolute losses of the losers.
    pub gross_loss: i128,
    pub total_pnl: i128,
    pub long_pnl: i128,
    pub short_pnl: i128,
    /// Largest and smallest profit (0 without trades).
    pub best_trade: i128,
    pub worst_trade: i128,
    /// Sum of holding periods, in days.
    pub holding_days_total: i128,
    pub total_commission: i128,
    /// Profit per symbol, symbols in sorted order.
    pub per_symbol_pnl: Vec<KeyedPnl>,
    /// Profit per sector (`Unknown` for trips without one), sectors in sorted order.
    pub per_sector_pnl: Vec<KeyedPnl>,
}

/// The symbol a trip is booked under.
pub open spec fn symbol_key(t: TripView) -> Seq<char> {
    t.symbol
}

/// The sector a trip is booked under.
pub open spec fn sector_key(t: TripView) -> Seq<char> {
    if t.sector.len() == 0 {
        "Unknown"@
    } else {
        t.sector
    }
}

/// Profit of the trips whose key is `k`.
pub open spec fn pnl_for_key(s: Seq<TripView>, key: spec_fn(TripView) -> Seq<char>, k: Seq<char>) -> int
    decreases s.len(),
{
    if s.len() == 0 {
        0
    } else {
        pnl_for_key(s.drop_last(), key, k) + if key(s.last()) == k {
            s.last().pnl
        } else {
            0
        }
    }
}

/// The keys of the trips.
pub open spec fn keys_of(s: Seq<TripView>, key: spec_fn(TripView) -> Seq<char>) -> Set<Seq<char>> {
    Set::new(|k: Seq<char>| exists|i: int| 0 <= i < s.len() && key(s[i]) == k)
}

/// `v` lists each key of `s` once, in sorted order, with that key's total profit.
pub open spec fn is_pnl_table(v: Seq<KeyedPnl>, s: Seq<TripView>, key: spec_fn(TripView) -> Seq<char>) -> bool {
    &&& forall|i: int, j: int| 0 <= i < j < v.len() ==> seq_lt(#[trigger] v[i].key@, #[trigger] v[j].key@)
    &&& forall|k: Seq<char>| keys_of(s, key).contains(k) <==> exists|i: int| 0 <= i < v.len() && #[trigger] v[i].key@ == k
    &&& forall|i: int| 0 <= i < v.len() ==> #[trigger] v[i].pnl == pnl_for_key(s, key, v[i].key@)
}


// ── trade statistics, executable ─────────────────────────────────────────────

proof fn lemma_sum_bound(s: Seq<TripView>, f: spec_fn(TripView) -> int, b: int)
    requires
        b >= 0,
        forall|i: int| 0 <= i < s.len() ==> -b <= #[trigger] f(s[i]) <= b,
    ensures
        -(s.len() * b) <= sum_by(s, f) <= s.len() * b,
    decreases s.len(),
{
    if s.len() > 0 {
        let n = s.len() as int;
        assert forall|i: int| 0 <= i < s.drop_last().len() implies -b <= #[trigger] f(
            s.drop_last()[i],
        ) <= b by {
            assert(s.drop_last()[i] == s[i]);
        }
        lemma_sum_bound(s.drop_last(), f, b);
        assert(f(s.last()) == f(s[n - 1]));
        assert((n - 1) * b + b == n * b) by (nonlinear_arith);
    }
}

proof fn lemma_key_sum_bound(s: Seq<TripView>, key: spec_fn(TripView) -> Seq<char>, k: Seq<char>)
    requires
        forall|i: int| 0 <= i < s.len() ==> trip_ok(#[trigger] s[i]),
    ensures
        -(s.len() * pnl_limit()) <= pnl_for_key(s, key, k) <= s.len() * pnl_limit(),
    decreases s.len(),
{
    if s.len() > 0 {
        let n = s.len() as int;
        assert forall|i: int| 0 <= i < s.drop_last().len() implies trip_ok(#[trigger] s.drop_last()[i]) by {
            assert(s.drop_last()[i] == s[i]);
        }
        lemma_key_sum_bound(s.drop_last(), key, k);
        assert(trip_ok(s[n - 1]));
        assert((n - 1) * pnl_limit() + pnl_limit() == n * pnl_limit()) by (nonlinear_arith);
    }
}

proof fn lemma_absent_key(s: Seq<TripView>, key: spec_fn(TripView) -> Seq<char>, k: Seq<char>)
    requires
        !keys_of(s, key).contains(k),
    ensures
        pnl_for_key(s, key, k) == 0,
    decreases s.len(),
{
    if s.len() > 0 {
        assert(!keys_of(s.drop_last(), key).contains(k)) by {
            if keys_of(s.drop_last(), key).contains(k) {
                let i = choose|i: int| 0 <= i < s.drop_last().len() && key(s.drop_last()[i]) == k;
                assert(key(s[i]) == k);
            }
        }
        lemma_absent_key(s.drop_last(), key, k);
        assert(key(s[s.len() - 1]) != k);
    }
}

/// Book `pnl` under key `k` (whose trips are `s` before this one, `t` the new trip).
fn book_pnl(
    table: &mut Vec<KeyedPnl>,
    k: String,
    pnl: i128,
    Ghost(s): Ghost<Seq<TripView>>,
    Ghost(t): Ghost<TripView>,
    Ghost(key): Ghost<spec_fn(TripView) -> Seq<char>>,
)
    requires
        is_pnl_table(old(table)@, s, key),
        key(t) == k@,
        t.pnl == pnl,
        trip_ok(t),
        forall|i: int| 0 <= i < s.len() ==> trip_ok(#[trigger] s[i]),
        s.len() < 0x1_0000_0000,
    ensures
        is_pnl_table(final(table)@, s.push(t), key),
{
    let ghost s1 = s.push(t);
    proof {
        assert(s1.drop_last() =~= s);
        assert(s1.last() == t);
    }
    let n = table.len();
    let mut i: usize = 0;
    while i < n && str_lt(table[i].key.as_str(), k.as_str())
        invariant
            n == table@.len(),
            table@ == old(table)@,
            i <= n,
            forall|j: int| 0 <= j < i ==> seq_lt(#[trigger] table@[j].key@, k@),
        decreases n - i,
    {
        i = i + 1;
    }
    if i < n && table[i].key == k {
        let ghost t0 = table@;
        proof {
            lemma_key_sum_bound(s, key, k@);
            lemma_key_sum_bound(s1, key, k@);
            assert(t0[i as int].pnl == pnl_for_key(s, key, k@));
            assert(pnl_for_key(s1, key, k@) == pnl_for_key(s, key, k@) + pnl);
            assert(s.len() * pnl_limit() <= 0x1_0000_0000 * pnl_limit()) by (nonlinear_arith)
                requires
                    s.len() < 0x1_0000_0000,
            ;
            assert(s1.len() * pnl_limit() <= 0x1_0000_0000 * pnl_limit()) by (nonlinear_arith)
                requires
                    s1.len() <= 0x1_0000_0000,
            ;
        }
        let old_pnl = table[i].pnl;
        let entry = KeyedPnl { key: k, pnl: old_pnl + pnl };
        table.set(i, entry);
        proof {
            assert(table@ == t0.update(i as int, entry));
            assert forall|j: int| 0 <= j < table@.len() implies #[trigger] table@[j].pnl == pnl_for_key(
                s1,
                key,
                table@[j].key@,
            ) by {
                if j != i {
                    assert(table@[j] == t0[j]);
                    assert(t0[j].key@ != k@) by {
                        if t0[j].key@ == k@ {
                            if j < i {
                                assert(seq_lt(t0[j].key@, t0[i as int].key@));
                            } else {
                                assert(seq_lt(t0[i as int].key@, t0[j].key@));
                            }
                            lemma_seq_lt_irreflexive(k@);
                        }
                    }
                }
            }
            assert forall|a: int, b: int| 0 <= a < b < table@.len() implies seq_lt(
                #[trigger] table@[a].key@,
                #[trigger] table@[b].key@,
            ) by {
                assert(table@[a].key@ == t0[a].key@);
                assert(table@[b].key@ == t0[b].key@);
            }
            assert forall|kk: Seq<char>| keys_of(s1, key).contains(kk) <==> exists|j: int|
                0 <= j < table@.len() && #[trigger] table@[j].key@ == kk by {
                if keys_of(s1, key).contains(kk) {
                    let j = choose|j: int| 0 <= j < s1.len() && key(s1[j]) == kk;
                    if j < s.len() {
                        assert(s1[j] == s[j]);
                        assert(keys_of(s, key).contains(kk));
                        let m = choose|m: int| 0 <= m < t0.len() && #[trigger] t0[m].key@ == kk;
                        assert(table@[m].key@ == kk);
                    } else {
                        assert(table@[i as int].key@ == kk);
                    }
                }
                if exists|j: int| 0 <= j < table@.len() && #[trigger] table@[j].key@ == kk {
                    let j = choose|j: int| 0 <= j < table@.len() && #[trigger] table@[j].key@ == kk;
                    assert(t0[j].key@ == kk);
                    assert(keys_of(s, key).contains(kk));
                    let m = choose|m: int| 0 <= m < s.len() && key(s[m]) == kk;
                    assert(s1[m] == s[m]);
                }
            }
        }
    } else {
        let ghost t0 = table@;
        proof {
            lemma_key_sum_bound(s1, key, k@);
            assert(s1.len() * pnl_limit() <= 0x1_0000_0000 * pnl_limit()) by (nonlinear_arith)
                requires
                    s1.len() <= 0x1_0000_0000,
            ;
            // k is not booked yet
            assert(!keys_of(s, key).contains(k@)) by {
                if keys_of(s, key).contains(k@) {
                    let m = choose|m: int| 0 <= m < t0.len() && #[trigger] t0[m].key@ == k@;
                    if m < i {
                        assert(seq_lt(t0[m].key@, k@));
                        lemma_seq_lt_irreflexive(k@);
                    } else if m > i {
                        assert(i < n);
                        assert(seq_lt(t0[i as int].key@, t0[m].key@));
                        lemma_seq_lt_total(t0[i as int].key@, k@);
                        lemma_seq_lt_asymmetric(t0[i as int].key@, k@);
                    } else {
                    }
                }
            }
            lemma_absent_key(s, key, k@);
        }
        let entry = KeyedPnl { key: k, pnl };
        table.insert(i, entry);
        proof {
            assert(table@ == t0.insert(i as int, entry));
            if i < n {
                lemma_seq_lt_total(t0[i as int].key@, entry.key@);
            }
            assert forall|a: int, b: int| 0 <= a < b < table@.len() implies seq_lt(
                #[trigger] table@[a].key@,
                #[trigger] table@[b].key@,
            ) by {
                if a < i && b == i {
                } else if a < i && b > i {
                    assert(table@[b] == t0[b - 1]);
                    if b - 1 > i {
                        assert(seq_lt(t0[i as int].key@, t0[b - 1].key@));
                        lemma_seq_lt_transitive(k@, t0[i as int].key@, t0[b - 1].key@);
                    }
                    lemma_seq_lt_transitive(t0[a].key@, k@, t0[b - 1].key@);
                } else if a == i {
                    assert(table@[b] == t0[b - 1]);
                    if b - 1 > i {
                        assert(seq_lt(t0[i as int].key@, t0[b - 1].key@));
                        lemma_seq_lt_transitive(k@, t0[i as int].key@, t0[b - 1].key@);
                    }
                } else if a > i {
                    assert(table@[a] == t0[a - 1]);
                    assert(table@[b] == t0[b - 1]);
                } else {
                    assert(table@[a] == t0[a]);
                    assert(table@[b] == t0[b]);
                }
            }
            assert forall|j: int| 0 <= j < table@.len() implies #[trigger] table@[j].pnl == pnl_for_key(
                s1,
                key,
                table@[j].key@,
            ) by {
                if j == i {
                } else {
                    let jj = if j < i {
                        j
                    } else {
                        j - 1
                    };
                    assert(table@[j] == t0[jj]);
                    assert(t0[jj].key@ != k@) by {
                        if t0[jj].key@ == k@ {
                            assert(keys_of(s, key).contains(k@));
                        }
                    }
                }
            }
            assert forall|kk: Seq<char>| keys_of(s1, key).contains(kk) <==> exists|j: int|
                0 <= j < table@.len() && #[trigger] table@[j].key@ == kk by {
                if keys_of(s1, key).contains(kk) {
                    let j = choose|j: int| 0 <= j < s1.len() && key(s1[j]) == kk;
                    if j < s.len() {
                        assert(s1[j] == s[j]);
                        assert(keys_of(s, key).contains(kk));
                        let m = choose|m: int| 0 <= m < t0.len() && #[trigger] t0[m].key@ == kk;
                        if m < i {
                            assert(table@[m].key@ == kk);
                        } else {
                            assert(table@[m + 1].key@ == kk);
                        }
                    } else {
                        assert(table@[i as int].key@ == kk);
                    }
                }
                if exists|j: int| 0 <= j < table@.len() && #[trigger] table@[j].key@ == kk {
                    let j = choose|j: int| 0 <= j < table@.len() && #[trigger] table@[j].key@ == kk;
                    if j == i {
                        assert(key(s1[s.len() as int]) == kk);
                    } else {
                        let jj = if j < i {
                            j
                        } else {
                            j - 1
                        };
                        assert(t0[jj].key@ == kk);
                        assert(keys_of(s, key).contains(kk));
                        let m = choose|m: int| 0 <= m < s.len() && key(s[m]) == kk;
                        assert(s1[m] == s[m]);
                    }
                }
            }
        }
    }
}


/// All trips are within the sizes the aggregates are proved for, and few enough.
pub open spec fn trips_ok(s: Seq<TripView>) -> bool {
    &&& s.len() <= u32::MAX
    &&& forall|i: int| 0 <= i < s.len() ==> trip_ok(#[trigger] s[i])
}

/// `stats` holds the exact statistics of the trips `s`.
pub open spec fn stats_of(stats: TradeStats, s: Seq<TripView>) -> bool {
    &&& stats.total_trades == s.len()
    &&& stats.winners == sum_by(s, |t: TripView| win_count(t))
    &&& stats.losers == sum_by(s, |t: TripView| loss_count(t))
    &&& stats.gross_profit == sum_by(s, |t: TripView| profit_part(t))
    &&& stats.gross_loss == sum_by(s, |t: TripView| loss_part(t))
    &&& stats.total_pnl == sum_by(s, |t: TripView| pnl_of(t))
    &&& stats.long_pnl == sum_by(s, |t: TripView| long_part(t))
    &&& stats.short_pnl == sum_by(s, |t: TripView| short_part(t))
    &&& stats.best_trade == best_of(s)
    &&& stats.worst_trade == worst_of(s)
    &&& stats.holding_days_total == sum_by(s, |t: TripView| days_of(t))
    &&& stats.total_commission == sum_by(s, |t: TripView| commission_of(t))
    &&& is_pnl_table(stats.per_symbol_pnl@, s, |t: TripView| symbol_key(t))
    &&& is_pnl_table(stats.per_sector_pnl@, s, |t: TripView| sector_key(t))
}

proof fn lemma_sums_bounded(s: Seq<TripView>)
    requires
        trips_ok(s),
    ensures
        0 <= sum_by(s, |t: TripView| win_count(t)) <= s.len(),
        0 <= sum_by(s, |t: TripView| loss_count(t)) <= s.len(),
        -0x1_0000_0000 * pnl_limit() <= sum_by(s, |t: TripView| profit_part(t)) <= 0x1_0000_0000 * pnl_limit(),
        -0x1_0000_0000 * pnl_limit() <= sum_by(s, |t: TripView| loss_part(t)) <= 0x1_0000_0000 * pnl_limit(),
        -0x1_0000_0000 * pnl_limit() <= sum_by(s, |t: TripView| pnl_of(t)) <= 0x1_0000_0000 * pnl_limit(),
        -0x1_0000_0000 * pnl_limit() <= sum_by(s, |t: TripView| long_part(t)) <= 0x1_0000_0000 * pnl_limit(),
        -0x1_0000_0000 * pnl_limit() <= sum_by(s, |t: TripView| short_part(t)) <= 0x1_0000_0000 * pnl_limit(),
        -0x1_0000_0000 * 0x1_0000_0000_0000_0000 <= sum_by(s, |t: TripView| days_of(t)) <= 0x1_0000_0000 * 0x1_0000_0000_0000_0000,
        -0x1_0000_0000 * 0x1_0000_0000_0000_0000 <= sum_by(s, |t: TripView| commission_of(t)) <= 0x1_0000_0000 * 0x1_0000_0000_0000_0000,
{
    let n = s.len() as int;
    lemma_count_bounds(s, |t: TripView| win_count(t));
    lemma_count_bounds(s, |t: TripView| loss_count(t));
    lemma_sum_bound(s, |t: TripView| profit_part(t), pnl_limit());
    lemma_sum_bound(s, |t: TripView| loss_part(t), pnl_limit());
    lemma_sum_bound(s, |t: TripView| pnl_of(t), pnl_limit());
    lemma_sum_bound(s, |t: TripView| long_part(t), pnl_limit());
    lemma_sum_bound(s, |t: TripView| short_part(t), pnl_limit());
    lemma_sum_bound(s, |t: TripView| days_of(t), 0x1_0000_0000_0000_0000);
    assert forall|i: int| 0 <= i < s.len() implies -0x1_0000_0000_0000_0000 <= #[trigger] commission_of(s[i])
        <= 0x1_0000_0000_0000_0000 by {
        assert(trip_ok(s[i]));
    }
    lemma_sum_bound(s, |t: TripView| commission_of(t), 0x1_0000_0000_0000_0000);
    assert(n * pnl_limit() <= 0x1_0000_0000 * pnl_limit()) by (nonlinear_arith)
        requires
            0 <= n <= 0x1_0000_0000,
    ;
    assert(n * 0x1_0000_0000_0000_0000 <= 0x1_0000_0000 * 0x1_0000_0000_0000_0000) by (nonlinear_arith)
        requires
            0 <= n <= 0x1_0000_0000,
    ;
}

proof fn lemma_count_bounds(s: Seq<TripView>, f: spec_fn(TripView) -> int)
    requires
        forall|i: int| 0 <= i < s.len() ==> 0 <= #[trigger] f(s[i]) <= 1,
    ensures
        0 <= sum_by(s, f) <= s.len(),
    decreases s.len(),
{
    if s.len() > 0 {
        assert forall|i: int| 0 <= i < s.drop_last().len() implies 0 <= #[trigger] f(s.drop_last()[i]) <= 1 by {
            assert(s.drop_last()[i] == s[i]);
        }
        lemma_count_bounds(s.drop_last(), f);
        assert(f(s.last()) == f(s[s.len() - 1]));
    }
}


proof fn lemma_sum_step(s: Seq<TripView>, i: int, f: spec_fn(TripView) -> int)
    requires
        0 <= i < s.len(),
    ensures
        sum_by(s.take(i + 1), f) == sum_by(s.take(i), f) + f(s[i]),
{
    assert(s.take(i + 1).drop_last() =~= s.take(i));
    assert(s.take(i + 1).last() == s[i]);
}

proof fn lemma_prefix_ok(s: Seq<TripView>, i: int)
    requires
        trips_ok(s),
        0 <= i <= s.len(),
    ensures
        trips_ok(s.take(i)),
{
    assert forall|j: int| 0 <= j < s.take(i).len() implies trip_ok(#[trigger] s.take(i)[j]) by {
        assert(s.take(i)[j] == s[j]);
    }
}

/// The exact statistics of a list of round trips.
pub fn compute_trade_stats(rts: &[RoundTrip]) -> (r: TradeStats)
    requires
        trips_ok(trip_views(rts@)),
    ensures
        stats_of(r, trip_views(rts@)),
{
    let ghost s = trip_views(rts@);
    let n = rts.len();
    let mut winners: usize = 0;
    let mut losers: usize = 0;
    let mut gross_profit: i128 = 0;
    let mut gross_loss: i128 = 0;
    let mut total_pnl: i128 = 0;
    let mut long_pnl: i128 = 0;
    let mut short_pnl: i128 = 0;
    let mut best: i128 = 0;
    let mut worst: i128 = 0;
    let mut days: i128 = 0;
    let mut commission: i128 = 0;
    let mut per_symbol: Vec<KeyedPnl> = Vec::new();
    let mut per_sector: Vec<KeyedPnl> = Vec::new();
    proof {
        reveal_strlit("Long");
        reveal_strlit("Short");
        reveal_strlit("Unknown");
        assert(s.take(0) =~= Seq::<TripView>::empty());
        assert(keys_of(s.take(0), |t: TripView| symbol_key(t)) =~= Set::<Seq<char>>::empty());
        assert(keys_of(s.take(0), |t: TripView| sector_key(t)) =~= Set::<Seq<char>>::empty());
    }
    let mut i: usize = 0;
    while i < n
        invariant
            n == rts@.len(),
            s == trip_views(rts@),
            trips_ok(s),
            i <= n,
            winners == sum_by(s.take(i as int), |t: TripView| win_count(t)),
            losers == sum_by(s.take(i as int), |t: TripView| loss_count(t)),
            gross_profit == sum_by(s.take(i as int), |t: TripView| profit_part(t)),
            gross_loss == sum_by(s.take(i as int), |t: TripView| loss_part(t)),
            total_pnl == sum_by(s.take(i as int), |t: TripView| pnl_of(t)),
            long_pnl == sum_by(s.take(i as int), |t: TripView| long_part(t)),
            short_pnl == sum_by(s.take(i as int), |t: TripView| short_part(t)),
            best == best_of(s.take(i as int)),
            worst == worst_of(s.take(i as int)),
            days == sum_by(s.take(i as int), |t: TripView| days_of(t)),
            commission == sum_by(s.take(i as int), |t: TripView| commission_of(t)),
            is_pnl_table(per_symbol@, s.take(i as int), |t: TripView| symbol_key(t)),
            is_pnl_table(per_sector@, s.take(i as int), |t: TripView| sector_key(t)),
        decreases n - i,
    {
        let t = &rts[i];
        let ghost tv = t@;
        proof {
            assert(s[i as int] == tv);
            lemma_prefix_ok(s, i + 1);
            lemma_sums_bounded(s.take(i + 1));
            lemma_sum_step(s, i as int, |t: TripView| win_count(t));
            lemma_sum_step(s, i as int, |t: TripView| loss_count(t));
            lemma_sum_step(s, i as int, |t: TripView| profit_part(t));
            lemma_sum_step(s, i as int, |t: TripView| loss_part(t));
            lemma_sum_step(s, i as int, |t: TripView| pnl_of(t));
            lemma_sum_step(s, i as int, |t: TripView| long_part(t));
            lemma_sum_step(s, i as int, |t: TripView| short_part(t));
            lemma_sum_step(s, i as int, |t: TripView| days_of(t));
            lemma_sum_step(s, i as int, |t: TripView| commission_of(t));
            assert(s.take(i + 1).drop_last() =~= s.take(i as int));
            assert(s.take(i + 1).last() == tv);
            assert(s.take(i + 1).len() == i + 1);
            if i == 0 {
                assert(s.take(1)[0] == tv);
            }
            assert(trip_ok(tv));
        }
        let p = t.pnl;
        if p > 0 {
            winners = winners + 1;
            gross_profit = gross_profit + p;
        } else {
            losers = losers + 1;
            gross_loss = gross_loss - p;
        }
        total_pnl = total_pnl + p;
        if str_eq(t.side.as_str(), "Long") {
            long_pnl = long_pnl + p;
        }
        if str_eq(t.side.as_str(), "Short") {
            short_pnl = short_pnl + p;
        }
        if i == 0 || p > best {
            best = p;
        }
        if i == 0 || p < worst {
            worst = p;
        }
        days = days + t.holding_days as i128;
        commission = commission + t.commission as i128;
        proof {
            lemma_prefix_ok(s, i as int);
        }
        book_pnl(
            &mut per_symbol,
            t.symbol.clone(),
            p,
            Ghost(s.take(i as int)),
            Ghost(tv),
            Ghost(|t: TripView| symbol_key(t)),
        );
        let sector_name = if t.sector.as_str().unicode_len() == 0 {
            "Unknown".to_string()
        } else {
            t.sector.clone()
        };
        book_pnl(
            &mut per_sector,
            sector_name,
            p,
            Ghost(s.take(i as int)),
            Ghost(tv),
            Ghost(|t: TripView| sector_key(t)),
        );
        proof {
            assert(s.take(i as int).push(tv) =~= s.take(i + 1));
        }
        i = i + 1;
    }
    proof {
        assert(s.take(n as int) =~= s);
    }
    TradeStats {
        total_trades: n,
        winners,
        losers,
        gross_profit,
        gross_loss,
        total_pnl,
        long_pnl,
        short_pnl,
        best_trade: best,
        worst_trade: worst,
        holding_days_total: days,
        total_commission: commission,
        per_symbol_pnl: per_symbol,
        per_sector_pnl: per_sector,
    }
}


// ── NAV series ───────────────────────────────────────────────────────────────

/// One point of the net-asset-value series.
#[derive(Debug)]
pub struct NavPoint {
    pub date: String,
    /// Net asset value (fixed-point).
    pub nav: i64,
}

/// The drawdown scan after some prefix of the series: running peak, deepest drawdown so
/// far as the fraction `num / den`, start of the current peak, longest stretch between
/// new peaks.
pub struct Drawdown {
    pub peak: int,
    pub num: int,
    pub den: int,
    pub start: int,
    pub max_dur: int,
}

/// The drawdown scan over the first `k` values of `v` (`k >= 1`).
pub open spec fn drawdown_scan(v: Seq<int>, k: int) -> Drawdown
    decreases k,
{
    if k <= 1 {
        Drawdown { peak: v[0], num: 0, den: 1, start: 0, max_dur: 0 }
    } else {
        let d = drawdown_scan(v, k - 1);
        let i = k - 1;
        let p = v[i];
        let (peak, start, max_dur) = if p > d.peak {
            let dur = i - d.start;
            (p, i, if dur > d.max_dur {
                dur
            } else {
                d.max_dur
            })
        } else {
            (d.peak, d.start, d.max_dur)
        };
        // (peak - p) / peak > num / den
        if (peak - p) * d.den > d.num * peak {
            Drawdown { peak, num: peak - p, den: peak, start, max_dur }
        } else {
            Drawdown { peak, num: d.num, den: d.den, start, max_dur }
        }
    }
}

pub open spec fn nav_values(nav: Seq<NavPoint>) -> Seq<int> {
    nav.map_values(|p: NavPoint| p.nav as int)
}

/// The `(year, month)` of a point, when its date parses.
pub open spec fn month_key(p: NavPoint) -> Option<(int, int)> {
    match date_spec(vstd::utf8::encode_utf8(p.date@)) {
        Some((y, m, d)) => Some((y, m)),
        None => None,
    }
}

/// NAV of the first point of month `k`.
pub open spec fn month_first(s: Seq<NavPoint>, k: (int, int)) -> Option<int>
    decreases s.len(),
{
    if s.len() == 0 {
        None
    } else {
        match month_first(s.drop_last(), k) {
            Some(v) => Some(v),
            None => if month_key(s.last()) == Some(k) {
                Some(s.last().nav as int)
            } else {
                None
            },
        }
    }
}

/// NAV of the last point of month `k`.
pub open spec fn month_last(s: Seq<NavPoint>, k: (int, int)) -> Option<int>
    decreases s.len(),
{
    if s.len() == 0 {
        None
    } else if month_key(s.last()) == Some(k) {
        Some(s.last().nav as int)
    } else {
        month_last(s.drop_last(), k)
    }
}

pub open spec fn key_lt(a: (int, int), b: (int, int)) -> bool {
    a.0 < b.0 || (a.0 == b.0 && a.1 < b.1)
}

/// First and last NAV of one calendar month.
#[derive(Debug, Clone, Copy)]
pub struct MonthSpan {
    pub year: i32,
    pub month: u32,
    pub first: i64,
    pub last: i64,
}

pub open spec fn span_key(m: MonthSpan) -> (int, int) {
    (m.year as int, m.month as int)
}

/// `v` lists each month of `s` once, in calendar order, with its first and last NAV.
pub open spec fn is_month_table(v: Seq<MonthSpan>, s: Seq<NavPoint>) -> bool {
    &&& forall|i: int, j: int| 0 <= i < j < v.len() ==> key_lt(span_key(#[trigger] v[i]), span_key(#[trigger] v[j]))
    &&& forall|k: (int, int)| (month_last(s, k) is Some) <==> exists|i: int| 0 <= i < v.len() && span_key(#[trigger] v[i]) == k
    &&& forall|i: int| 0 <= i < v.len() ==> month_first(s, span_key(#[trigger] v[i])) == Some(v[i].first as int)
        && month_last(s, span_key(v[i])) == Some(v[i].last as int)
}

/// One month's return basis: the NAV it is measured from (the previous month's last
/// NAV, or this month's first for the first month) and the NAV it ended at.
#[derive(Debug, Clone, Copy)]
pub struct MonthBase {
    pub year: i32,
    pub month: u32,
    pub base: i64,
    pub last: i64,
}

/// Month-by-month return bases of a month table.
pub open spec fn bases_of(v: Seq<MonthSpan>) -> Seq<MonthBase> {
    Seq::new(
        v.len(),
        |i: int|
            MonthBase {
                year: v[i].year,
                month: v[i].month,
                base: if i > 0 {
                    v[i - 1].last
                } else {
                    v[0].first
                },
                last: v[i].last,
            },
    )
}

/// Exact aggregates of the NAV series.
#[derive(Debug)]
pub struct NavStats {
    pub first_nav: i64,
    pub last_nav: i64,
    /// Whole days from the first to the last point.
    pub days: i64,
    /// Deepest drawdown, as the fraction `max_dd_num / max_dd_den` of the peak.
    pub max_dd_num: i64,
    pub max_dd_den: i64,
    /// Longest run of points between two successive new peaks.
    pub max_dd_duration: usize,
    pub monthly: Vec<MonthBase>,
}

/// Points the NAV statistics accept: positive values and readable dates.
pub open spec fn nav_ok(nav: Seq<NavPoint>) -> bool {
    forall|i: int| 0 <= i < nav.len() ==> 0 < (#[trigger] nav[i]).nav && date_text_ok(
        vstd::utf8::encode_utf8(nav[i].date@),
    )
}

/// The drawdown scan, executed.
fn scan_drawdown(nav: &[NavPoint]) -> (r: (i64, i64, usize))
    requires
        nav@.len() >= 1,
        nav_ok(nav@),
    ensures
        ({
            let d = drawdown_scan(nav_values(nav@), nav@.len() as int);
            r.0 == d.num && r.1 == d.den && r.2 == d.max_dur
        }),
{
    let ghost v = nav_values(nav@);
    let n = nav.len();
    let mut peak: i64 = nav[0].nav;
    let mut num: i64 = 0;
    let mut den: i64 = 1;
    let mut start: usize = 0;
    let mut max_dur: usize = 0;
    let mut i: usize = 1;
    proof {
        assert(v[0] == nav@[0].nav);
    }
    while i < n
        invariant
            n == nav@.len(),
            v == nav_values(nav@),
            nav_ok(nav@),
            1 <= i <= n,
            ({
                let d = drawdown_scan(v, i as int);
                &&& d.peak == peak && d.num == num && d.den == den
                &&& d.start == start && d.max_dur == max_dur
            }),
            0 < peak,
            0 <= num < den,
            0 < den,
            start < i,
            max_dur <= i,
        decreases n - i,
    {
        let p = nav[i].nav;
        proof {
            assert(v[i as int] == p);
            assert(0 < p);
        }
        if p > peak {
            let dur = i - start;
            if dur > max_dur {
                max_dur = dur;
            }
            peak = p;
            start = i;
        }
        let drop = (peak - p) as i128;
        assert(drop * (den as i128) <= 0x4000_0000_0000_0000_0000_0000_0000_0000) by (nonlinear_arith)
            requires
                0 <= drop < 0x8000_0000_0000_0000,
                0 < den < 0x8000_0000_0000_0000,
        ;
        assert((num as i128) * (peak as i128) <= 0x4000_0000_0000_0000_0000_0000_0000_0000) by (nonlinear_arith)
            requires
                0 <= num < 0x8000_0000_0000_0000,
                0 < peak < 0x8000_0000_0000_0000,
        ;
        if drop * (den as i128) > (num as i128) * (peak as i128) {
            num = peak - p;
            den = peak;
        }
        i = i + 1;
    }
    (num, den, max_dur)
}


proof fn lemma_month_step(s: Seq<NavPoint>, p: NavPoint, k: (int, int))
    ensures
        month_last(s.push(p), k) == (if month_key(p) == Some(k) {
            Some(p.nav as int)
        } else {
            month_last(s, k)
        }),
        month_first(s.push(p), k) == (match month_first(s, k) {
            Some(v) => Some(v),
            None => if month_key(p) == Some(k) {
                Some(p.nav as int)
            } else {
                None
            },
        }),
{
    assert(s.push(p).drop_last() =~= s);
}

proof fn lemma_first_iff_last(s: Seq<NavPoint>, k: (int, int))
    ensures
        (month_first(s, k) is Some) == (month_last(s, k) is Some),
    decreases s.len(),
{
    if s.len() > 0 {
        lemma_first_iff_last(s.drop_last(), k);
    }
}

/// Record point `p` (of month `key`) in the month table of the points `s` before it.
fn book_month(table: &mut Vec<MonthSpan>, y: i32, m: u32, nav: i64, Ghost(s): Ghost<Seq<NavPoint>>, Ghost(p): Ghost<NavPoint>)
    requires
        is_month_table(old(table)@, s),
        month_key(p) == Some((y as int, m as int)),
        p.nav == nav,
    ensures
        is_month_table(final(table)@, s.push(p)),
{
    let ghost key = (y as int, m as int);
    let ghost s1 = s.push(p);
    let n = table.len();
    let mut i: usize = 0;
    while i < n && (table[i].year < y || (table[i].year == y && table[i].month < m))
        invariant
            n == table@.len(),
            table@ == old(table)@,
            i <= n,
            forall|j: int| 0 <= j < i ==> key_lt(span_key(#[trigger] table@[j]), key),
            key == (y as int, m as int),
        decreases n - i,
    {
        proof {
            assert(key_lt(span_key(table@[i as int]), key));
        }
        i = i + 1;
    }
    let ghost t0 = table@;
    proof {
        assert forall|k: (int, int)| k != key implies month_last(s1, k) == month_last(s, k)
            && month_first(s1, k) == month_first(s, k) by {
            lemma_month_step(s, p, k);
        }
        lemma_month_step(s, p, key);
        lemma_first_iff_last(s, key);
    }
    if i < n && table[i].year == y && table[i].month == m {
        let e = MonthSpan { year: y, month: m, first: table[i].first, last: nav };
        table.set(i, e);
        proof {
            assert(table@ == t0.update(i as int, e));
            assert(span_key(t0[i as int]) == key);
            assert(month_last(s, key) is Some);
            assert forall|j: int| 0 <= j < table@.len() && j != i implies span_key(#[trigger] table@[j]) != key by {
                assert(table@[j] == t0[j]);
                if j < i {
                    assert(key_lt(span_key(t0[j]), span_key(t0[i as int])));
                } else {
                    assert(key_lt(span_key(t0[i as int]), span_key(t0[j])));
                }
            }
            assert forall|a: int, b: int| 0 <= a < b < table@.len() implies key_lt(
                span_key(#[trigger] table@[a]),
                span_key(#[trigger] table@[b]),
            ) by {
                assert(span_key(table@[a]) == span_key(t0[a]));
                assert(span_key(table@[b]) == span_key(t0[b]));
            }
            assert forall|k: (int, int)| (month_last(s1, k) is Some) <==> exists|j: int|
                0 <= j < table@.len() && span_key(#[trigger] table@[j]) == k by {
                if k != key {
                    if month_last(s, k) is Some {
                        let j = choose|j: int| 0 <= j < t0.len() && span_key(#[trigger] t0[j]) == k;
                        assert(span_key(table@[j]) == k);
                    }
                    if exists|j: int| 0 <= j < table@.len() && span_key(#[trigger] table@[j]) == k {
                        let j = choose|j: int| 0 <= j < table@.len() && span_key(#[trigger] table@[j]) == k;
                        assert(span_key(t0[j]) == k);
                    }
                } else {
                    assert(span_key(table@[i as int]) == k);
                }
            }
            assert forall|j: int| 0 <= j < table@.len() implies month_first(s1, span_key(#[trigger] table@[j]))
                == Some(table@[j].first as int) && month_last(s1, span_key(table@[j])) == Some(
                table@[j].last as int,
            ) by {
                if j != i {
                    assert(table@[j] == t0[j]);
                }
            }
        }
    } else {
        let e = MonthSpan { year: y, month: m, first: nav, last: nav };
        proof {
            assert(!(month_last(s, key) is Some)) by {
                if month_last(s, key) is Some {
                    let j = choose|j: int| 0 <= j < t0.len() && span_key(#[trigger] t0[j]) == key;
                    if j < i {
                        assert(key_lt(span_key(t0[j]), key));
                    } else if j > i {
                        assert(key_lt(span_key(t0[i as int]), span_key(t0[j])));
                        assert(!key_lt(span_key(t0[i as int]), key));
                    }
                }
            }
        }
        table.insert(i, e);
        proof {
            assert(table@ == t0.insert(i as int, e));
            assert forall|a: int, b: int| 0 <= a < b < table@.len() implies key_lt(
                span_key(#[trigger] table@[a]),
                span_key(#[trigger] table@[b]),
            ) by {
                if b < i {
                    assert(table@[a] == t0[a]);
                    assert(table@[b] == t0[b]);
                } else if b == i {
                    assert(table@[a] == t0[a]);
                } else if a < i {
                    assert(table@[a] == t0[a]);
                    assert(table@[b] == t0[b - 1]);
                    assert(i < n);
                    assert(!key_lt(span_key(t0[i as int]), key));
                    if b - 1 > i {
                        assert(key_lt(span_key(t0[i as int]), span_key(t0[b - 1])));
                    }
                } else if a == i {
                    assert(table@[b] == t0[b - 1]);
                    assert(!key_lt(span_key(t0[i as int]), key));
                    assert(span_key(t0[i as int]) != key);
                    if b - 1 > i {
                        assert(key_lt(span_key(t0[i as int]), span_key(t0[b - 1])));
                    }
                } else {
                    assert(table@[a] == t0[a - 1]);
                    assert(table@[b] == t0[b - 1]);
                }
            }
            assert forall|k: (int, int)| (month_last(s1, k) is Some) <==> exists|j: int|
                0 <= j < table@.len() && span_key(#[trigger] table@[j]) == k by {
                if k != key {
                    if month_last(s, k) is Some {
                        let j = choose|j: int| 0 <= j < t0.len() && span_key(#[trigger] t0[j]) == k;
                        if j < i {
                            assert(span_key(table@[j]) == k);
                        } else {
                            assert(span_key(table@[j + 1]) == k);
                        }
                    }
                    if exists|j: int| 0 <= j < table@.len() && span_key(#[trigger] table@[j]) == k {
                        let j = choose|j: int| 0 <= j < table@.len() && span_key(#[trigger] table@[j]) == k;
                        if j < i {
                            assert(span_key(t0[j]) == k);
                        } else if j > i {
                            assert(span_key(t0[j - 1]) == k);
                        }
                    }
                } else {
                    assert(span_key(table@[i as int]) == k);
                }
            }
            assert forall|j: int| 0 <= j < table@.len() implies month_first(s1, span_key(#[trigger] table@[j]))
                == Some(table@[j].first as int) && month_last(s1, span_key(table@[j])) == Some(
                table@[j].last as int,
            ) by {
                if j < i {
                    assert(table@[j] == t0[j]);
                    assert(span_key(t0[j]) != key);
                } else if j > i {
                    assert(table@[j] == t0[j - 1]);
                    assert(span_key(t0[j - 1]) != key) by {
                        if span_key(t0[j - 1]) == key {
                            assert(month_last(s, key) is Some);
                        }
                    }
                }
            }
        }
    }
}

/// The month table of a NAV series.
fn month_table(nav: &[NavPoint]) -> (r: Vec<MonthSpan>)
    requires
        nav_ok(nav@),
    ensures
        is_month_table(r@, nav@),
{
    let mut table: Vec<MonthSpan> = Vec::new();
    let n = nav.len();
    let mut i: usize = 0;
    proof {
        assert(nav@.take(0) =~= Seq::<NavPoint>::empty());
    }
    while i < n
        invariant
            n == nav@.len(),
            nav_ok(nav@),
            i <= n,
            is_month_table(table@, nav@.take(i as int)),
        decreases n - i,
    {
        let ghost pre = nav@.take(i as int);
        let ghost p = nav@[i as int];
        proof {
            assert(nav@.take(i + 1) =~= pre.push(p));
            assert(date_text_ok(vstd::utf8::encode_utf8(p.date@)));
        }
        let ds = nav[i].date.as_str();
        proof {
            assert(ds@ == p.date@);
        }
        let parsed = parse_date(ds);
        match parsed {
            Some((y, m, _d)) => {
                proof {
                    assert(month_key(p) == Some((y as int, m as int)));
                }
                book_month(&mut table, y, m, nav[i].nav, Ghost(pre), Ghost(p));
            },
            None => {
                proof {
                    assert(month_key(p) is None);
                    assert forall|k: (int, int)| month_last(pre.push(p), k) == month_last(pre, k)
                        && month_first(pre.push(p), k) == month_first(pre, k) by {
                        lemma_month_step(pre, p, k);
                    }
                    let s1 = pre.push(p);
                    assert forall|k: (int, int)| (month_last(s1, k) is Some) <==> exists|j: int|
                        0 <= j < table@.len() && span_key(#[trigger] table@[j]) == k by {
                        lemma_month_step(pre, p, k);
                    }
                    assert forall|j: int| 0 <= j < table@.len() implies month_first(s1, span_key(#[trigger] table@[j]))
                        == Some(table@[j].first as int) && month_last(s1, span_key(table@[j])) == Some(
                        table@[j].last as int,
                    ) by {
                        lemma_month_step(pre, p, span_key(table@[j]));
                    }
                }
            },
        }
        i = i + 1;
    }
    proof {
        assert(nav@.take(n as int) =~= nav@);
    }
    table
}

/// Return bases of consecutive months.
fn month_bases(table: &Vec<MonthSpan>) -> (r: Vec<MonthBase>)
    ensures
        r@ == bases_of(table@),
{
    let mut out: Vec<MonthBase> = Vec::new();
    let n = table.len();
    let mut i: usize = 0;
    while i < n
        invariant
            n == table@.len(),
            i <= n,
            out@ == bases_of(table@).take(i as int),
        decreases n - i,
    {
        let base = if i > 0 {
            table[i - 1].last
        } else {
            table[0].first
        };
        out.push(MonthBase { year: table[i].year, month: table[i].month, base, last: table[i].last });
        proof {
            assert(out@ =~= bases_of(table@).take(i + 1));
        }
        i = i + 1;
    }
    proof {
        assert(bases_of(table@).take(n as int) =~= bases_of(table@));
    }
    out
}

/// `st` holds the exact aggregates of a NAV series of two or more points.
pub open spec fn nav_stats_of(st: NavStats, nav: Seq<NavPoint>) -> bool {
    let d = drawdown_scan(nav_values(nav), nav.len() as int);
    &&& st.first_nav == nav[0].nav
    &&& st.last_nav == nav.last().nav
    &&& st.days == days_between_spec(
        vstd::utf8::encode_utf8(nav[0].date@),
        vstd::utf8::encode_utf8(nav.last().date@),
    )
    &&& st.max_dd_num == d.num && st.max_dd_den == d.den
    &&& st.max_dd_duration == d.max_dur
    &&& exists|v: Seq<MonthSpan>| is_month_table(v, nav) && st.monthly@ == bases_of(v)
}

/// The exact aggregates of a NAV series (two or more points).
pub fn compute_nav_stats(nav: &[NavPoint]) -> (r: NavStats)
    requires
        nav@.len() >= 2,
        nav_ok(nav@),
    ensures
        nav_stats_of(r, nav@),
{
    let n = nav.len();
    proof {
        assert(nav_ok(nav@));
        assert(date_text_ok(vstd::utf8::encode_utf8(nav@[0].date@)));
        assert(date_text_ok(vstd::utf8::encode_utf8(nav@[n - 1].date@)));
    }
    let days = days_between(nav[0].date.as_str(), nav[n - 1].date.as_str());
    let (num, den, dur) = scan_drawdown(nav);
    let table = month_table(nav);
    let monthly = month_bases(&table);
    NavStats {
        first_nav: nav[0].nav,
        last_nav: nav[n - 1].nav,
        days,
        max_dd_num: num,
        max_dd_den: den,
        max_dd_duration: dur,
        monthly,
    }
}

/// Everything a performance report is computed from.
#[derive(Debug)]
pub struct Metrics {
    pub trades: TradeStats,
    /// Present when the NAV series has two or more points.
    pub nav: Option<NavStats>,
}

/// The exact aggregates of a performance report: statistics over the round trips, and,
/// when the NAV series has two or more points, over the series.
pub fn compute_metrics(rts: &[RoundTrip], nav: &[NavPoint]) -> (r: Metrics)
    requires
        trips_ok(trip_views(rts@)),
        nav_ok(nav@),
    ensures
        stats_of(r.trades, trip_views(rts@)),
        match r.nav {
            Some(st) => nav@.len() >= 2 && nav_stats_of(st, nav@),
            None => nav@.len() < 2,
        },
{
    let trades = compute_trade_stats(rts);
    let nav_stats = if nav.len() >= 2 {
        Some(compute_nav_stats(nav))
    } else {
        None
    };
    Metrics { trades, nav: nav_stats }
}


// ── the breakdowns add up ────────────────────────────────────────────────────

/// The profits of a table, added up.
pub open spec fn table_sum(v: Seq<KeyedPnl>) -> int
    decreases v.len(),
{
    if v.len() == 0 {
        0
    } else {
        table_sum(v.drop_last()) + v.last().pnl
    }
}

/// The keys of a table, in order.
pub open spec fn table_keys(v: Seq<KeyedPnl>) -> Seq<Seq<char>> {
    v.map_values(|e: KeyedPnl| e.key@)
}

/// Each key's profit over `s`, added up over the keys `l`.
pub open spec fn key_sum(l: Seq<Seq<char>>, s: Seq<TripView>, key: spec_fn(TripView) -> Seq<char>) -> int
    decreases l.len(),
{
    if l.len() == 0 {
        0
    } else {
        key_sum(l.drop_last(), s, key) + pnl_for_key(s, key, l.last())
    }
}

/// `x` for each entry of `l` equal to `k`, added up.
pub open spec fn hit_sum(l: Seq<Seq<char>>, k: Seq<char>, x: int) -> int
    decreases l.len(),
{
    if l.len() == 0 {
        0
    } else {
        hit_sum(l.drop_last(), k, x) + (if l.last() == k {
            x
        } else {
            0
        })
    }
}

proof fn lemma_hit_sum(l: Seq<Seq<char>>, k: Seq<char>, x: int)
    requires
        forall|i: int, j: int| 0 <= i < j < l.len() ==> #[trigger] l[i] != #[trigger] l[j],
    ensures
        hit_sum(l, k, x) == (if l.contains(k) {
            x
        } else {
            0
        }),
    decreases l.len(),
{
    if l.len() > 0 {
        let pre = l.drop_last();
        assert forall|i: int, j: int| 0 <= i < j < pre.len() implies #[trigger] pre[i] != #[trigger] pre[j] by {
            assert(pre[i] == l[i] && pre[j] == l[j]);
        }
        lemma_hit_sum(pre, k, x);
        let n = l.len() - 1;
        if pre.contains(k) {
            let i = choose|i: int| 0 <= i < pre.len() && pre[i] == k;
            assert(l[i] == k);
            assert(l.contains(k));
            assert(l[n] != k) by {
                assert(l[i] != l[n]);
            }
        } else {
            if l.contains(k) {
                let i = choose|i: int| 0 <= i < l.len() && l[i] == k;
                if i < n {
                    assert(pre[i] == k);
                }
            }
            if l[n] == k {
                assert(l.contains(k));
            }
        }
    }
}

proof fn lemma_key_sum_step(l: Seq<Seq<char>>, s: Seq<TripView>, key: spec_fn(TripView) -> Seq<char>)
    requires
        s.len() > 0,
    ensures
        key_sum(l, s, key) == key_sum(l, s.drop_last(), key) + hit_sum(l, key(s.last()), s.last().pnl),
    decreases l.len(),
{
    if l.len() > 0 {
        lemma_key_sum_step(l.drop_last(), s, key);
    }
}

/// Added up over a list of distinct keys that covers every trip's key, the per-key
/// profits give the total profit.
proof fn lemma_key_sum_total(l: Seq<Seq<char>>, s: Seq<TripView>, key: spec_fn(TripView) -> Seq<char>)
    requires
        forall|i: int, j: int| 0 <= i < j < l.len() ==> #[trigger] l[i] != #[trigger] l[j],
        forall|i: int| 0 <= i < s.len() ==> l.contains(key(#[trigger] s[i])),
    ensures
        key_sum(l, s, key) == sum_by(s, |t: TripView| pnl_of(t)),
    decreases s.len(),
{
    if s.len() == 0 {
        assert(key_sum(l, s, key) == 0) by {
            lemma_key_sum_zero(l, s, key);
        }
    } else {
        let pre = s.drop_last();
        assert forall|i: int| 0 <= i < pre.len() implies l.contains(key(#[trigger] pre[i])) by {
            assert(pre[i] == s[i]);
        }
        lemma_key_sum_total(l, pre, key);
        lemma_key_sum_step(l, s, key);
        assert(l.contains(key(s[s.len() - 1])));
        lemma_hit_sum(l, key(s.last()), s.last().pnl);
    }
}

proof fn lemma_key_sum_zero(l: Seq<Seq<char>>, s: Seq<TripView>, key: spec_fn(TripView) -> Seq<char>)
    requires
        s.len() == 0,
    ensures
        key_sum(l, s, key) == 0,
    decreases l.len(),
{
    if l.len() > 0 {
        lemma_key_sum_zero(l.drop_last(), s, key);
    }
}

proof fn lemma_table_sum_keys(v: Seq<KeyedPnl>, s: Seq<TripView>, key: spec_fn(TripView) -> Seq<char>)
    requires
        forall|i: int| 0 <= i < v.len() ==> #[trigger] v[i].pnl == pnl_for_key(s, key, v[i].key@),
    ensures
        table_sum(v) == key_sum(table_keys(v), s, key),
    decreases v.len(),
{
    if v.len() > 0 {
        let pre = v.drop_last();
        assert forall|i: int| 0 <= i < pre.len() implies #[trigger] pre[i].pnl == pnl_for_key(s, key, pre[i].key@) by {
            assert(pre[i] == v[i]);
        }
        lemma_table_sum_keys(pre, s, key);
        assert(table_keys(v).drop_last() =~= table_keys(pre));
        assert(v.last() == v[v.len() - 1]);
    }
}

/// A profit table adds up to the total profit of its trips.
proof fn lemma_table_adds_up(v: Seq<KeyedPnl>, s: Seq<TripView>, key: spec_fn(TripView) -> Seq<char>)
    requires
        is_pnl_table(v, s, key),
    ensures
        table_sum(v) == sum_by(s, |t: TripView| pnl_of(t)),
{
    let l = table_keys(v);
    assert forall|i: int, j: int| 0 <= i < j < l.len() implies #[trigger] l[i] != #[trigger] l[j] by {
        assert(seq_lt(v[i].key@, v[j].key@));
        lemma_seq_lt_irreflexive(v[i].key@);
    }
    assert forall|i: int| 0 <= i < s.len() implies l.contains(key(#[trigger] s[i])) by {
        assert(keys_of(s, key).contains(key(s[i])));
        let j = choose|j: int| 0 <= j < v.len() && #[trigger] v[j].key@ == key(s[i]);
        assert(l[j] == key(s[i]));
    }
    lemma_table_sum_keys(v, s, key);
    lemma_key_sum_total(l, s, key);
}

/// The per-symbol and the per-sector profits each add up to the total profit.
pub proof fn law_breakdowns_add_up(stats: TradeStats, s: Seq<TripView>)
    requires
        stats_of(stats, s),
    ensures
        table_sum(stats.per_symbol_pnl@) == stats.total_pnl,
        table_sum(stats.per_sector_pnl@) == stats.total_pnl,
{
    lemma_table_adds_up(stats.per_symbol_pnl@, s, |t: TripView| symbol_key(t));
    lemma_table_adds_up(stats.per_sector_pnl@, s, |t: TripView| sector_key(t));
}
} // verus!
