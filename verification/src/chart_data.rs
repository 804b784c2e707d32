//! The data behind the performance charts, computed exactly: the running peak that the
//! drawdown curve is measured from, and the profit histogram's bins.

use vstd::prelude::*;

use crate::metrics::{pnl_limit, KeyedPnl, NavPoint};
use crate::model::PRICE_SCALE;

verus! {

// ── drawdown peaks ───────────────────────────────────────────────────────────

/// The highest NAV among the first `k` points (`k >= 1`).
pub open spec fn prefix_peak(v: Seq<NavPoint>, k: int) -> int
    decreases k,
{
    if k <= 1 {
        v[0].nav as int
    } else {
        let p = prefix_peak(v, k - 1);
        if v[k - 1].nav > p {
            v[k - 1].nav as int
        } else {
            p
        }
    }
}

/// For every point of the series, the highest NAV up to and including it (the level its
/// drawdown is measured from).
pub fn running_peaks(nav: &[NavPoint]) -> (r: Vec<i64>)
    ensures
        r@.len() == nav@.len(),
        forall|i: int| 0 <= i < r@.len() ==> r@[i] == prefix_peak(nav@, i + 1),
{
    let mut out: Vec<i64> = Vec::new();
    if nav.len() == 0 {
        return out;
    }
    let mut peak: i64 = nav[0].nav;
    let mut i: usize = 0;
    while i < nav.len()
        invariant
            0 < nav@.len(),
            i <= nav@.len(),
            out@.len() == i,
            forall|j: int| 0 <= j < i ==> out@[j] == prefix_peak(nav@, j + 1),
            i == 0 ==> peak == nav@[0].nav,
            i > 0 ==> peak == prefix_peak(nav@, i as int),
        decreases nav.len() - i,
    {
        if nav[i].nav > peak {
            peak = nav[i].nav;
        }
        out.push(peak);
        i = i + 1;
    }
    out
}

// ── profit histogram ─────────────────────────────────────────────────────────

/// Number of bars of the profit histogram.
pub const HIST_BINS: usize = 30;

pub open spec fn seq_min(s: Seq<i128>) -> int
    decreases s.len(),
{
    if s.len() <= 1 {
        s[0] as int
    } else {
        let m = seq_min(s.drop_last());
        if (s.last() as int) < m {
            s.last() as int
        } else {
            m
        }
    }
}

pub open spec fn seq_max(s: Seq<i128>) -> int
    decreases s.len(),
{
    if s.len() <= 1 {
        s[0] as int
    } else {
        let m = seq_max(s.drop_last());
        if (s.last() as int) > m {
            s.last() as int
        } else {
            m
        }
    }
}

/// The histogram's span: from the smallest to the largest profit, at least one dollar.
pub open spec fn hist_range(s: Seq<i128>) -> int {
    let d = seq_max(s) - seq_min(s);
    if d < PRICE_SCALE {
        PRICE_SCALE as int
    } else {
        d
    }
}

/// The bar a profit falls in: `HIST_BINS` equal bars over the span from the smallest
/// profit, the largest profit in the last bar.
pub open spec fn bin_of(p: int, lo: int, range: int) -> int {
    let b = (p - lo) * (HIST_BINS as int) / range;
    if b > HIST_BINS - 1 {
        HIST_BINS - 1
    } else {
        b
    }
}

/// How many of `s` fall in bar `k`.
pub open spec fn bin_count(s: Seq<i128>, lo: int, range: int, k: int) -> int
    decreases s.len(),
{
    if s.len() == 0 {
        0
    } else {
        bin_count(s.drop_last(), lo, range, k) + (if bin_of(s.last() as int, lo, range) == k {
            1int
        } else {
            0
        })
    }
}

proof fn lemma_bin_count_bound(s: Seq<i128>, lo: int, range: int, k: int)
    ensures
        0 <= bin_count(s, lo, range, k) <= s.len(),
    decreases s.len(),
{
    if s.len() > 0 {
        lemma_bin_count_bound(s.drop_last(), lo, range, k);
    }
}

proof fn lemma_min_max_bounds(s: Seq<i128>, i: int)
    requires
        0 <= i < s.len(),
    ensures
        seq_min(s) <= s[i] as int <= seq_max(s),
    decreases s.len(),
{
    if s.len() > 1 && i < s.len() - 1 {
        lemma_min_max_bounds(s.drop_last(), i);
        assert(s.drop_last()[i] == s[i]);
    }
}

proof fn lemma_min_max_in(s: Seq<i128>, l: int)
    requires
        s.len() > 0,
        forall|i: int| 0 <= i < s.len() ==> -l <= #[trigger] s[i] <= l,
    ensures
        -l <= seq_min(s) <= l,
        -l <= seq_max(s) <= l,
    decreases s.len(),
{
    if s.len() > 1 {
        assert forall|i: int| 0 <= i < s.drop_last().len() implies -l <= #[trigger] s.drop_last()[i] <= l by {
            assert(s.drop_last()[i] == s[i]);
        }
        lemma_min_max_in(s.drop_last(), l);
        assert(s.last() == s[s.len() - 1]);
    }
}

/// The profit histogram of a list of profits (fixed-point money): the number of profits
/// in each of `HIST_BINS` equal bars spanning them (all zero without profits).
pub fn pnl_bins(pnls: &[i128]) -> (r: Vec<u32>)
    requires
        pnls@.len() <= u32::MAX,
        forall|i: int| 0 <= i < pnls@.len() ==> -pnl_limit() <= #[trigger] pnls@[i] <= pnl_limit(),
    ensures
        r@.len() == HIST_BINS,
        pnls@.len() == 0 ==> forall|k: int| 0 <= k < HIST_BINS ==> r@[k] == 0,
        pnls@.len() > 0 ==> forall|k: int|
            0 <= k < HIST_BINS ==> r@[k] == bin_count(pnls@, seq_min(pnls@), hist_range(pnls@), k),
{
    let mut counts: Vec<u32> = Vec::new();
    let mut k: usize = 0;
    while k < HIST_BINS
        invariant
            k <= HIST_BINS,
            counts@.len() == k,
            forall|j: int| 0 <= j < k ==> counts@[j] == 0,
        decreases HIST_BINS - k,
    {
        counts.push(0);
        k = k + 1;
    }
    let n = pnls.len();
    if n == 0 {
        return counts;
    }
    let mut lo: i128 = pnls[0];
    let mut hi: i128 = pnls[0];
    let mut i: usize = 1;
    while i < n
        invariant
            n == pnls@.len(),
            1 <= i <= n,
            lo == seq_min(pnls@.take(i as int)),
            hi == seq_max(pnls@.take(i as int)),
        decreases n - i,
    {
        proof {
            assert(pnls@.take(i + 1).drop_last() =~= pnls@.take(i as int));
        }
        if pnls[i] < lo {
            lo = pnls[i];
        }
        if pnls[i] > hi {
            hi = pnls[i];
        }
        i = i + 1;
    }
    proof {
        assert(pnls@.take(n as int) =~= pnls@);
        lemma_min_max_bounds(pnls@, 0);
        lemma_min_max_in(pnls@, pnl_limit());
    }
    let ghost s = pnls@;
    let ghost range_s = hist_range(s);
    let range: i128 = if hi - lo < PRICE_SCALE as i128 {
        PRICE_SCALE as i128
    } else {
        hi - lo
    };
    assert(range == range_s);
    let mut j: usize = 0;
    while j < n
        invariant
            n == pnls@.len(),
            s == pnls@,
            n <= u32::MAX,
            forall|t: int| 0 <= t < n ==> -pnl_limit() <= #[trigger] pnls@[t] <= pnl_limit(),
            lo == seq_min(s),
            range == hist_range(s),
            range >= PRICE_SCALE,
            j <= n,
            counts@.len() == HIST_BINS,
            forall|kk: int| 0 <= kk < HIST_BINS ==> counts@[kk] == bin_count(s.take(j as int), lo as int, range as int, kk),
        decreases n - j,
    {
        let p = pnls[j];
        proof {
            lemma_min_max_bounds(s, j as int);
            lemma_min_max_in(s, pnl_limit());
        }
        let off: i128 = p - lo;
        assert(0 <= off <= 2 * pnl_limit());
        let b0: i128 = off * 30 / range;
        assert(b0 >= 0) by (nonlinear_arith)
            requires
                off >= 0,
                range > 0,
                b0 == (off * 30) / (range as int),
        ;
        let b: usize = if b0 > 29 {
            29
        } else {
            b0 as usize
        };
        proof {
            assert(b == bin_of(p as int, lo as int, range as int));
            assert(s.take(j + 1).drop_last() =~= s.take(j as int));
            assert(s.take(j + 1).last() == p);
            lemma_bin_count_bound(s.take(j as int), lo as int, range as int, b as int);
        }
        let c = counts[b];
        counts.set(b, c + 1);
        j = j + 1;
    }
    proof {
        assert(s.take(n as int) =~= s);
    }
    counts
}

// ── profit by symbol ─────────────────────────────────────────────────────────

/// Most bars the per-symbol chart shows.
pub const TOP_SYMBOLS: usize = 20;

pub open spec fn keyed_views(v: Seq<KeyedPnl>) -> Seq<(Seq<char>, int)> {
    v.map_values(|k: KeyedPnl| (k.key@, k.pnl as int))
}

pub open spec fn pair_views(v: Seq<(String, i128)>) -> Seq<(Seq<char>, int)> {
    v.map_values(|p: (String, i128)| (p.0@, p.1 as int))
}

/// Insert `x` into `sorted` (largest profit first) after every entry whose profit is at
/// least its own.
pub open spec fn insert_desc(sorted: Seq<(Seq<char>, int)>, x: (Seq<char>, int)) -> Seq<(Seq<char>, int)>
    decreases sorted.len(),
{
    if sorted.len() == 0 {
        seq![x]
    } else if x.1 > sorted[0].1 {
        seq![x] + sorted
    } else {
        seq![sorted[0]] + insert_desc(sorted.drop_first(), x)
    }
}

/// `s` ordered by profit, largest first; equal profits keep their order.
pub open spec fn sort_desc(s: Seq<(Seq<char>, int)>) -> Seq<(Seq<char>, int)>
    decreases s.len(),
{
    if s.len() == 0 {
        s
    } else {
        insert_desc(sort_desc(s.drop_last()), s.last())
    }
}

fn insert_pair(sorted: &mut Vec<(String, i128)>, x: (String, i128))
    ensures
        pair_views(final(sorted)@) == insert_desc(pair_views(old(sorted)@), (x.0@, x.1 as int)),
{
    let ghost s0 = pair_views(sorted@);
    let ghost xv = (x.0@, x.1 as int);
    let n = sorted.len();
    let mut k: usize = 0;
    proof {
        assert(s0.skip(0) =~= s0);
        assert(s0.take(0) =~= Seq::<(Seq<char>, int)>::empty());
    }
    while k < n && !(x.1 > sorted[k].1)
        invariant
            n == sorted@.len(),
            sorted@ == old(sorted)@,
            s0 == pair_views(sorted@),
            xv == (x.0@, x.1 as int),
            k <= n,
            insert_desc(s0, xv) == s0.take(k as int) + insert_desc(s0.skip(k as int), xv),
        decreases n - k,
    {
        proof {
            let rest = s0.skip(k as int);
            assert(rest[0] == s0[k as int]);
            assert(rest.drop_first() =~= s0.skip(k + 1));
            assert(s0.take(k + 1) =~= s0.take(k as int).push(s0[k as int]));
            assert(insert_desc(rest, xv) == seq![rest[0]] + insert_desc(rest.drop_first(), xv));
            assert(s0.take(k as int) + (seq![rest[0]] + insert_desc(s0.skip(k + 1), xv))
                =~= s0.take(k + 1) + insert_desc(s0.skip(k + 1), xv));
        }
        k = k + 1;
    }
    let ghost xr = x;
    sorted.insert(k, x);
    proof {
        assert(sorted@ == old(sorted)@.insert(k as int, xr));
        let rest = s0.skip(k as int);
        if k < n {
            assert(rest[0] == s0[k as int]);
            assert(insert_desc(rest, xv) == seq![xv] + rest);
        } else {
            assert(rest =~= Seq::<(Seq<char>, int)>::empty());
        }
        assert(pair_views(sorted@) =~= s0.take(k as int) + insert_desc(rest, xv));
    }
}

/// The per-symbol profits to chart: ordered by profit, largest first (equal profits in
/// their given order), at most `n` of them.
pub fn top_symbols(per_symbol: &[KeyedPnl], n: usize) -> (r: Vec<(String, i128)>)
    ensures
        pair_views(r@) == sort_desc(keyed_views(per_symbol@)).take(
            if n < per_symbol@.len() {
                n as int
            } else {
                per_symbol@.len() as int
            },
        ),
{
    let ghost all = keyed_views(per_symbol@);
    let mut out: Vec<(String, i128)> = Vec::new();
    let mut i: usize = 0;
    while i < per_symbol.len()
        invariant
            i <= per_symbol@.len(),
            all == keyed_views(per_symbol@),
            pair_views(out@) == sort_desc(all.take(i as int)),
            out@.len() == i,
        decreases per_symbol.len() - i,
    {
        let x = (per_symbol[i].key.clone(), per_symbol[i].pnl);
        proof {
            assert(all.take(i + 1).drop_last() =~= all.take(i as int));
            assert(all.take(i + 1).last() == (x.0@, x.1 as int));
            lemma_insert_desc_len(sort_desc(all.take(i as int)), (x.0@, x.1 as int));
        }
        insert_pair(&mut out, x);
        i = i + 1;
    }
    proof {
        assert(all.take(i as int) =~= all);
    }
    let ghost full = out@;
    out.truncate(n);
    proof {
        assert(pair_views(out@) =~= pair_views(full).take(
            if n < per_symbol@.len() {
                n as int
            } else {
                per_symbol@.len() as int
            },
        ));
    }
    out
}

proof fn lemma_insert_desc_len(sorted: Seq<(Seq<char>, int)>, x: (Seq<char>, int))
    ensures
        insert_desc(sorted, x).len() == sorted.len() + 1,
    decreases sorted.len(),
{
    if sorted.len() > 0 && !(x.1 > sorted[0].1) {
        lemma_insert_desc_len(sorted.drop_first(), x);
    }
}

/// Profits in non-increasing order.
pub open spec fn non_increasing(s: Seq<(Seq<char>, int)>) -> bool {
    forall|i: int, j: int| 0 <= i < j < s.len() ==> (#[trigger] s[j]).1 <= (#[trigger] s[i]).1
}

proof fn lemma_insert_desc(sorted: Seq<(Seq<char>, int)>, x: (Seq<char>, int))
    requires
        non_increasing(sorted),
    ensures
        non_increasing(insert_desc(sorted, x)),
        insert_desc(sorted, x).to_multiset() == sorted.to_multiset().insert(x),
        forall|t: (Seq<char>, int)| insert_desc(sorted, x).contains(t) ==> t == x || sorted.contains(t),
    decreases sorted.len(),
{
    broadcast use vstd::seq_lib::group_to_multiset_ensures;
    if sorted.len() == 0 {
        assert(seq![x] =~= Seq::<(Seq<char>, int)>::empty().insert(0, x));
    } else if x.1 > sorted[0].1 {
        let r = seq![x] + sorted;
        assert forall|i: int, j: int| 0 <= i < j < r.len() implies (#[trigger] r[j]).1 <= (#[trigger] r[i]).1 by {
            if i == 0 {
                assert(r[j] == sorted[j - 1]);
                if j - 1 > 0 {
                    assert(sorted[j - 1].1 <= sorted[0].1);
                }
            } else {
                assert(r[i] == sorted[i - 1] && r[j] == sorted[j - 1]);
            }
        }
        assert(r =~= sorted.insert(0, x));
        assert forall|t: (Seq<char>, int)| r.contains(t) implies t == x || sorted.contains(t) by {
            let k = choose|k: int| 0 <= k < r.len() && r[k] == t;
            if k > 0 {
                assert(sorted[k - 1] == t);
            }
        }
    } else {
        let rest = sorted.drop_first();
        assert(non_increasing(rest)) by {
            assert forall|i: int, j: int| 0 <= i < j < rest.len() implies (#[trigger] rest[j]).1 <= (#[trigger] rest[i]).1 by {
                assert(rest[i] == sorted[i + 1] && rest[j] == sorted[j + 1]);
            }
        }
        lemma_insert_desc(rest, x);
        let tail = insert_desc(rest, x);
        let r = seq![sorted[0]] + tail;
        assert forall|i: int, j: int| 0 <= i < j < r.len() implies (#[trigger] r[j]).1 <= (#[trigger] r[i]).1 by {
            if i == 0 {
                let t = r[j];
                assert(t == tail[j - 1]);
                assert(tail.contains(t));
                if t != x {
                    assert(rest.contains(t));
                    let k = choose|k: int| 0 <= k < rest.len() && rest[k] == t;
                    assert(sorted[k + 1] == t);
                }
            } else {
                assert(r[i] == tail[i - 1] && r[j] == tail[j - 1]);
            }
        }
        assert(sorted =~= rest.insert(0, sorted[0]));
        assert(r =~= tail.insert(0, sorted[0]));
        assert forall|t: (Seq<char>, int)| r.contains(t) implies t == x || sorted.contains(t) by {
            let k = choose|k: int| 0 <= k < r.len() && r[k] == t;
            if k > 0 {
                assert(tail[k - 1] == t);
                assert(tail.contains(t));
                if t != x {
                    assert(rest.contains(t));
                    let m = choose|m: int| 0 <= m < rest.len() && rest[m] == t;
                    assert(sorted[m + 1] == t);
                }
            } else {
                assert(sorted[0] == t);
            }
        }
    }
}

/// The per-symbol bars come largest profit first, and are exactly the given profits,
/// none lost or repeated.
pub proof fn law_symbol_bars_ordered(s: Seq<(Seq<char>, int)>)
    ensures
        non_increasing(sort_desc(s)),
        sort_desc(s).to_multiset() == s.to_multiset(),
    decreases s.len(),
{
    broadcast use vstd::seq_lib::group_to_multiset_ensures;
    if s.len() > 0 {
        law_symbol_bars_ordered(s.drop_last());
        lemma_insert_desc(sort_desc(s.drop_last()), s.last());
        assert(s =~= s.drop_last().push(s.last()));
    }
}

} // verus!
