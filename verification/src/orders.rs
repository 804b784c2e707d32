//! Working-order replication: scale the source's resting limit/stop orders to the client,
//! diff them against the client's existing resting orders, and fold *entry* orders into the
//! effective position used by the reconciliation safety net.

use vstd::prelude::*;

use crate::model::{order_key, signed_qty_of, OrderKind, Position, Side, WorkingOrder, MAX_QTY,
    PRICE_SCALE};
use crate::reconcile::{find_pos, net_of};
use crate::sizing::{abs, balances_known, round_half_away, round_qty, scaling_limit, SizingParams};
use crate::symbols::{insert_sorted, is_sorted_set, lemma_sorted_set_unique, strictly_sorted, views};
use crate::text::seq_lt;

verus! {

// ── desired orders ───────────────────────────────────────────────────────────

/// A master order quantity scaled to the client: `|round(q × client / master ×
/// multiplier)|`, at least one share for a non-zero order when `force_min_one`; `None`
/// when the exact scaling leaves the range the engine deals in.
pub open spec fn scaled_order_qty(q: int, p: SizingParams) -> Option<int> {
    let num = q * p.client_balance * p.multiplier;
    if abs(num) > scaling_limit() {
        None
    } else {
        let r = abs(round_half_away(num, p.master_balance * PRICE_SCALE));
        let r1 = if r < 1 && q != 0 && p.force_min_one {
            1
        } else {
            r
        };
        if r1 > MAX_QTY {
            None
        } else {
            Some(r1)
        }
    }
}

/// The client quantity of one mirrored order, or `None` when the order is dropped: a zero
/// quantity, an entry sell in long-only mode (it would open a short), or a protective sell
/// in long-only mode with no long to protect. A protective sell never exceeds the long.
pub open spec fn desired_qty(
    mo: WorkingOrder,
    p: SizingParams,
    long_only: bool,
    client: Seq<Position>,
) -> Option<int> {
    match scaled_order_qty(mo.quantity as int, p) {
        None => None,
        Some(q) => if q <= 0 {
            None
        } else if long_only && mo.side == Side::Sell {
            if mo.is_entry {
                None
            } else {
                let n = net_of(find_pos(client, mo.symbol@));
                let long = if n > 0 {
                    n
                } else {
                    0
                };
                if long <= 0 {
                    None
                } else {
                    Some(
                        if q < long {
                            q
                        } else {
                            long
                        },
                    )
                }
            }
        } else {
            Some(q)
        },
    }
}

/// `w` with its quantity replaced.
pub open spec fn with_qty(w: WorkingOrder, q: int) -> WorkingOrder {
    WorkingOrder {
        symbol: w.symbol,
        currency: w.currency,
        exchange: w.exchange,
        side: w.side,
        quantity: q as i64,
        kind: w.kind,
        limit_price: w.limit_price,
        aux_price: w.aux_price,
        is_entry: w.is_entry,
    }
}

/// The mirrored orders for a list of master orders, in order.
pub open spec fn desired_list(
    ms: Seq<WorkingOrder>,
    p: SizingParams,
    long_only: bool,
    client: Seq<Position>,
) -> Seq<WorkingOrder>
    decreases ms.len(),
{
    if ms.len() == 0 {
        Seq::empty()
    } else {
        desired_list(ms.drop_last(), p, long_only, client) + (match desired_qty(
            ms.last(),
            p,
            long_only,
            client,
        ) {
            Some(q) => seq![with_qty(ms.last(), q)],
            None => Seq::empty(),
        })
    }
}

fn scale_order_qty(q: i64, p: &SizingParams) -> (r: Option<i64>)
    requires
        balances_known(*p),
    ensures
        crate::sizing::opt_int(r) == scaled_order_qty(q as int, *p),
{
    proof {
        lemma_product_fits(q as int, p.client_balance as int);
        lemma_product_fits(p.master_balance as int, PRICE_SCALE as int);
    }
    let prod = (q as i128) * (p.client_balance as i128);
    let big: i128 = 0x1_0000_0000_0000_0000_0000_0000_0000_00;
    let num = match prod.checked_mul(p.multiplier as i128) {
        Some(v) => v,
        None => {
            return None;
        },
    };
    if num > big || num < -big {
        return None;
    }
    let den = (p.master_balance as i128) * (PRICE_SCALE as i128);
    let r0 = round_qty(num, den);
    proof {
        lemma_round_range(num as int, den as int);
    }
    let mut r = if r0 < 0 {
        -r0
    } else {
        r0
    };
    if r < 1 && q != 0 && p.force_min_one {
        r = 1;
    }
    if r > MAX_QTY as i128 {
        return None;
    }
    Some(r as i64)
}

proof fn lemma_product_fits(a: int, b: int)
    requires
        -0x8000_0000_0000_0000 <= a <= 0x7fff_ffff_ffff_ffff,
        -0x8000_0000_0000_0000 <= b <= 0x7fff_ffff_ffff_ffff,
    ensures
        -0x4000_0000_0000_0000_0000_0000_0000_0000 <= a * b <= 0x4000_0000_0000_0000_0000_0000_0000_0000,
{
    assert(-0x4000_0000_0000_0000_0000_0000_0000_0000 <= a * b <= 0x4000_0000_0000_0000_0000_0000_0000_0000) by (nonlinear_arith)
        requires
            -0x8000_0000_0000_0000 <= a <= 0x7fff_ffff_ffff_ffff,
            -0x8000_0000_0000_0000 <= b <= 0x7fff_ffff_ffff_ffff,
    ;
}

proof fn lemma_round_range(num: int, den: int)
    requires
        den >= 1,
        -scaling_limit() <= num <= scaling_limit(),
    ensures
        -scaling_limit() <= round_half_away(num, den) <= scaling_limit(),
{
    if num >= 0 {
        assert(0 <= (2 * num + den) / (2 * den) <= num) by (nonlinear_arith)
            requires
                den >= 1,
                num >= 0,
        ;
    } else {
        let m = -num;
        assert(0 <= (2 * m + den) / (2 * den) <= m) by (nonlinear_arith)
            requires
                den >= 1,
                m >= 1,
        ;
    }
}

/// Scale the master's working orders into the client's desired working orders.
///
/// Quantities are scaled by `client_balance / master_balance × multiplier` (rounded,
/// min one share when the master has a non-zero order). In long-only mode, entry sells
/// (which would open a short) are dropped, and protective sells are capped to the
/// client's current long in that symbol so they only ever close.
pub fn desired_working_orders(
    master: &[WorkingOrder],
    sizing: &SizingParams,
    long_only: bool,
    client_positions: &[Position],
) -> (r: Vec<WorkingOrder>)
    ensures
        r@ == (if balances_known(*sizing) {
            desired_list(master@, *sizing, long_only, client_positions@)
        } else {
            Seq::empty()
        }),
{
    if sizing.ratio().is_none() {
        return Vec::new();
    }
    let mut out: Vec<WorkingOrder> = Vec::new();
    let n = master.len();
    let mut i: usize = 0;
    proof {
        assert(master@.subrange(0, 0) =~= Seq::<WorkingOrder>::empty());
    }
    while i < n
        invariant
            n == master@.len(),
            i <= n,
            balances_known(*sizing),
            out@ == desired_list(
                master@.subrange(0, i as int),
                *sizing,
                long_only,
                client_positions@,
            ),
        decreases n - i,
    {
        let mo = &master[i];
        proof {
            let pre = master@.subrange(0, i + 1);
            assert(pre.drop_last() =~= master@.subrange(0, i as int));
            assert(pre.last() == master@[i as int]);
        }
        let ghost before = out@;
        let scaled = scale_order_qty(mo.quantity, sizing);
        let mut keep = false;
        let mut qty: i64 = 0;
        match scaled {
            Some(q) => {
                if q > 0 {
                    if long_only && mo.side == Side::Sell {
                        if !mo.is_entry {
                            let long: i64 = match crate::reconcile::find_position(
                                client_positions,
                                &mo.symbol,
                            ) {
                                Some(p) => if p.net_qty > 0 {
                                    p.net_qty
                                } else {
                                    0
                                },
                                None => 0,
                            };
                            if long > 0 {
                                keep = true;
                                qty = if q < long {
                                    q
                                } else {
                                    long
                                };
                            }
                        }
                    } else {
                        keep = true;
                        qty = q;
                    }
                }
            },
            None => {},
        }
        if keep {
            out.push(
                WorkingOrder {
                    symbol: mo.symbol.clone(),
                    currency: mo.currency.clone(),
                    exchange: mo.exchange.clone(),
                    side: mo.side,
                    quantity: qty,
                    kind: mo.kind,
                    limit_price: mo.limit_price,
                    aux_price: mo.aux_price,
                    is_entry: mo.is_entry,
                },
            );
        }
        proof {
            let d = desired_qty(*mo, *sizing, long_only, client_positions@);
            if keep {
                assert(d == Some(qty as int));
                assert(out@ =~= before + seq![with_qty(*mo, qty as int)]);
            } else {
                assert(d is None);
                assert(out@ =~= before + Seq::<WorkingOrder>::empty());
            }
        }
        i = i + 1;
    }
    proof {
        assert(master@.subrange(0, n as int) =~= master@);
    }
    out
}

// ── tolerant diff ────────────────────────────────────────────────────────────

/// The difference between the desired client working orders and the ones currently live.
#[derive(Debug)]
pub struct WorkingDiff {
    pub to_place: Vec<WorkingOrder>,
    /// Keys of currently-live client orders that should be cancelled (caller maps key →
    /// order id).
    pub to_cancel: Vec<String>,
}

/// The price field that actually matters for an order of this kind.
pub open spec fn relevant_price_spec(w: WorkingOrder) -> int {
    match w.kind {
        OrderKind::Limit | OrderKind::StopLimit => w.limit_price as int,
        OrderKind::Stop => w.aux_price as int,
        OrderKind::Market => 0,
    }
}

/// Two orders are "the same resting order": same symbol, side and kind; quantities within
/// 3% of the larger (or 1 share, whichever is larger); relevant prices within 0.5% of the
/// second order's price (or one cent, whichever is larger).
pub open spec fn same_order_spec(a: WorkingOrder, b: WorkingOrder) -> bool {
    let qmax = if abs(a.quantity as int) > abs(b.quantity as int) {
        abs(a.quantity as int)
    } else {
        abs(b.quantity as int)
    };
    let dq = abs(a.quantity - b.quantity);
    let pa = relevant_price_spec(a);
    let pb = relevant_price_spec(b);
    let dp = abs(pa - pb);
    &&& a.symbol@ == b.symbol@
    &&& a.side == b.side
    &&& a.kind == b.kind
    &&& (dq <= 1 || 100 * dq <= 3 * qmax)
    &&& (dp * 100 <= PRICE_SCALE || 200 * dp <= abs(pb))
}

fn relevant_price(w: &WorkingOrder) -> (r: i64)
    ensures
        r == relevant_price_spec(*w),
{
    match w.kind {
        OrderKind::Limit | OrderKind::StopLimit => w.limit_price,
        OrderKind::Stop => w.aux_price,
        OrderKind::Market => 0,
    }
}

fn abs128(x: i128) -> (r: i128)
    requires
        x > i128::MIN,
    ensures
        r == abs(x as int),
{
    if x < 0 {
        -x
    } else {
        x
    }
}

/// Two orders are "the same resting order" if they share symbol/side/kind and their
/// quantity and price are within tolerance. The tolerance absorbs the unavoidable churn
/// sources — proportional-sizing quantity drift as balances tick, and IBKR price
/// rounding/capping on read-back — so a matched book is NOT cancelled-and-replaced on
/// every restart or balance wobble. A *material* change still falls outside tolerance.
fn same_working_order(a: &WorkingOrder, b: &WorkingOrder) -> (r: bool)
    ensures
        r == same_order_spec(*a, *b),
{
    if a.symbol != b.symbol || a.side != b.side || a.kind != b.kind {
        return false;
    }
    let qa = abs128(a.quantity as i128);
    let qb = abs128(b.quantity as i128);
    let qmax = if qa > qb {
        qa
    } else {
        qb
    };
    let dq = abs128(a.quantity as i128 - b.quantity as i128);
    if !(dq <= 1 || 100 * dq <= 3 * qmax) {
        return false;
    }
    let pa = relevant_price(a) as i128;
    let pb = relevant_price(b) as i128;
    let dp = abs128(pa - pb);
    dp * 100 <= PRICE_SCALE as i128 || 200 * dp <= abs128(pb)
}

/// The first live order at or after `from` that is still unmatched and equivalent to `d`.
pub open spec fn first_match_from(
    used: Seq<bool>,
    current: Seq<WorkingOrder>,
    d: WorkingOrder,
    from: int,
) -> Option<int>
    decreases current.len() - from,
{
    if from >= current.len() || from < 0 {
        None
    } else if !used[from] && same_order_spec(current[from], d) {
        Some(from)
    } else {
        first_match_from(used, current, d, from + 1)
    }
}

/// Greedy tolerant matching of desired orders, in order, against live ones: each desired
/// order claims the first unclaimed equivalent live order, or is to be placed.
/// Returns which live orders were claimed and the desired orders left to place.
pub open spec fn greedy_match(desired: Seq<WorkingOrder>, current: Seq<WorkingOrder>) -> (
    Seq<bool>,
    Seq<WorkingOrder>,
)
    decreases desired.len(),
{
    if desired.len() == 0 {
        (Seq::new(current.len(), |i: int| false), Seq::empty())
    } else {
        let (used, placed) = greedy_match(desired.drop_last(), current);
        let d = desired.last();
        match first_match_from(used, current, d, 0) {
            Some(i) => (used.update(i, true), placed),
            None => (used, placed.push(d)),
        }
    }
}

/// The keys of the live orders left unclaimed, in order.
pub open spec fn unclaimed_keys(current: Seq<WorkingOrder>, used: Seq<bool>) -> Seq<Seq<char>>
    decreases current.len(),
{
    if current.len() == 0 {
        Seq::empty()
    } else {
        unclaimed_keys(current.drop_last(), used) + (if used[current.len() - 1] {
            Seq::empty()
        } else {
            seq![order_key(current.last())]
        })
    }
}

proof fn lemma_greedy_len(desired: Seq<WorkingOrder>, current: Seq<WorkingOrder>)
    ensures
        greedy_match(desired, current).0.len() == current.len(),
    decreases desired.len(),
{
    if desired.len() > 0 {
        lemma_greedy_len(desired.drop_last(), current);
        let (used, placed) = greedy_match(desired.drop_last(), current);
        lemma_first_match_valid(used, current, desired.last(), 0);
        if let Some(i) = first_match_from(used, current, desired.last(), 0) {
            assert(used.update(i, true).len() == used.len());
        }
    }
}

proof fn lemma_first_match_valid(
    used: Seq<bool>,
    current: Seq<WorkingOrder>,
    d: WorkingOrder,
    from: int,
)
    requires
        0 <= from,
        used.len() == current.len(),
    ensures
        first_match_from(used, current, d, from) matches Some(i) ==> from <= i < current.len()
            && !used[i] && same_order_spec(current[i], d),
        first_match_from(used, current, d, from) is None ==> forall|k: int|
            from <= k < current.len() && k >= 0 ==> used[k] || !same_order_spec(current[k], d),
    decreases current.len() - from,
{
    if from < current.len() && from >= 0 {
        lemma_first_match_valid(used, current, d, from + 1);
    }
}

/// Diff desired vs. currently-live client working orders with TOLERANT matching.
///
/// An existing live order that already corresponds to a desired one (same symbol/side/kind,
/// quantity and price within tolerance) is left in place. Only desired orders with no live
/// counterpart are placed, and only live orders with no desired counterpart are cancelled.
pub fn diff_working_orders(desired: &[WorkingOrder], current: &[WorkingOrder]) -> (r: WorkingDiff)
    ensures
        r.to_place@ == greedy_match(desired@, current@).1,
        views(r.to_cancel@) == unclaimed_keys(current@, greedy_match(desired@, current@).0),
{
    let nc = current.len();
    let mut used: Vec<bool> = Vec::new();
    let mut z: usize = 0;
    while z < nc
        invariant
            nc == current@.len(),
            z <= nc,
            used@.len() == z,
            forall|k: int| 0 <= k < z ==> !used@[k],
        decreases nc - z,
    {
        used.push(false);
        z = z + 1;
    }
    proof {
        assert(used@ =~= Seq::new(current@.len(), |i: int| false));
        assert(desired@.subrange(0, 0) =~= Seq::<WorkingOrder>::empty());
    }
    let mut to_place: Vec<WorkingOrder> = Vec::new();
    let nd = desired.len();
    let mut i: usize = 0;
    while i < nd
        invariant
            nd == desired@.len(),
            nc == current@.len(),
            i <= nd,
            (used@, to_place@) == greedy_match(desired@.subrange(0, i as int), current@),
        decreases nd - i,
    {
        let d = &desired[i];
        proof {
            let pre = desired@.subrange(0, i + 1);
            assert(pre.drop_last() =~= desired@.subrange(0, i as int));
            assert(pre.last() == desired@[i as int]);
            lemma_greedy_len(desired@.subrange(0, i as int), current@);
        }
        // Find an as-yet-unmatched live order equivalent to this desired one.
        let mut j: usize = 0;
        while j < nc && (used[j] || !same_working_order(&current[j], d))
            invariant
                nc == current@.len(),
                used@.len() == nc,
                j <= nc,
                first_match_from(used@, current@, *d, 0) == first_match_from(
                    used@,
                    current@,
                    *d,
                    j as int,
                ),
            decreases nc - j,
        {
            j = j + 1;
        }
        if j < nc {
            proof {
                assert(first_match_from(used@, current@, *d, 0) == Some(j as int));
            }
            used.set(j, true);
        } else {
            proof {
                assert(first_match_from(used@, current@, *d, 0) is None);
            }
            to_place.push(d.clone());
        }
        i = i + 1;
    }
    proof {
        assert(desired@.subrange(0, nd as int) =~= desired@);
        lemma_greedy_len(desired@, current@);
        assert(current@.subrange(0, 0) =~= Seq::<WorkingOrder>::empty());
    }
    let mut to_cancel: Vec<String> = Vec::new();
    let mut k: usize = 0;
    while k < nc
        invariant
            nc == current@.len(),
            used@.len() == nc,
            k <= nc,
            views(to_cancel@) == unclaimed_keys(current@.subrange(0, k as int), used@),
        decreases nc - k,
    {
        proof {
            let pre = current@.subrange(0, k + 1);
            assert(pre.drop_last() =~= current@.subrange(0, k as int));
            assert(pre.last() == current@[k as int]);
        }
        let ghost before = views(to_cancel@);
        if !used[k] {
            to_cancel.push(current[k].key());
            proof {
                assert(views(to_cancel@) =~= before + seq![order_key(current@[k as int])]);
            }
        } else {
            proof {
                assert(views(to_cancel@) =~= before + Seq::<Seq<char>>::empty());
            }
        }
        k = k + 1;
    }
    proof {
        assert(current@.subrange(0, nc as int) =~= current@);
    }
    WorkingDiff { to_place, to_cancel }
}


// ── effective exposure ───────────────────────────────────────────────────────

/// A working order with a quantity in the range the engine deals in.
pub open spec fn order_wf(w: WorkingOrder) -> bool {
    0 <= w.quantity <= MAX_QTY
}

/// Net signed quantity of the *entry* orders for `sym`.
pub open spec fn entry_sum(ws: Seq<WorkingOrder>, sym: Seq<char>) -> int
    decreases ws.len(),
{
    if ws.len() == 0 {
        0
    } else {
        entry_sum(ws.drop_last(), sym) + (if ws.last().is_entry && ws.last().symbol@ == sym {
            signed_qty_of(ws.last())
        } else {
            0
        })
    }
}

/// The last entry order for `sym`, if any.
pub open spec fn last_entry(ws: Seq<WorkingOrder>, sym: Seq<char>) -> Option<WorkingOrder>
    decreases ws.len(),
{
    if ws.len() == 0 {
        None
    } else if ws.last().is_entry && ws.last().symbol@ == sym {
        Some(ws.last())
    } else {
        last_entry(ws.drop_last(), sym)
    }
}

/// Every symbol with a position or an entry order.
pub open spec fn exposure_symbols(ps: Seq<Position>, ws: Seq<WorkingOrder>) -> Set<Seq<char>> {
    Set::new(
        |s: Seq<char>|
            (exists|i: int| 0 <= i < ps.len() && ps[i].symbol@ == s) || (exists|i: int|
                0 <= i < ws.len() && ws[i].is_entry && ws[i].symbol@ == s),
    )
}

/// The effective net exposure in `sym`: the position plus its pending entry orders.
pub open spec fn effective_net(ps: Seq<Position>, ws: Seq<WorkingOrder>, sym: Seq<char>) -> int {
    net_of(find_pos(ps, sym)) + entry_sum(ws, sym)
}

/// The effective position for `sym`: the held position (or a fresh flat one) with the
/// entry orders' quantities added and the last entry order's currency and exchange.
pub open spec fn effective_view(ps: Seq<Position>, ws: Seq<WorkingOrder>, sym: Seq<char>) -> crate::model::PositionView {
    let net = effective_net(ps, ws, sym);
    let base = find_pos(ps, sym);
    let (cur, exch) = match last_entry(ws, sym) {
        Some(w) => (w.currency@, w.exchange@),
        None => match base {
            Some(p) => (p.currency@, p.exchange@),
            None => ("USD"@, "SMART"@),
        },
    };
    match base {
        Some(p) => crate::model::PositionView {
            symbol: sym,
            currency: cur,
            exchange: exch,
            net_qty: net,
            avg_cost: p.avg_cost as int,
            order_kind: p.order_kind,
            limit_price: p.limit_price as int,
            aux_price: p.aux_price as int,
        },
        None => crate::model::PositionView {
            symbol: sym,
            currency: cur,
            exchange: exch,
            net_qty: net,
            avg_cost: 0,
            order_kind: OrderKind::Market,
            limit_price: 0,
            aux_price: 0,
        },
    }
}

/// The effective positions for a list of symbols, in order, leaving out flat ones.
pub open spec fn effective_for(
    ps: Seq<Position>,
    ws: Seq<WorkingOrder>,
    syms: Seq<Seq<char>>,
) -> Seq<crate::model::PositionView>
    decreases syms.len(),
{
    if syms.len() == 0 {
        Seq::empty()
    } else {
        effective_for(ps, ws, syms.drop_last()) + (if effective_net(ps, ws, syms.last()) != 0 {
            seq![effective_view(ps, ws, syms.last())]
        } else {
            Seq::empty()
        })
    }
}

/// The exposure symbols in sorted order.
pub open spec fn exposure_order(ps: Seq<Position>, ws: Seq<WorkingOrder>) -> Seq<Seq<char>> {
    choose|s: Seq<Seq<char>>| is_sorted_set(s, exposure_symbols(ps, ws))
}

/// The views of a list of positions.
pub open spec fn position_views(v: Seq<Position>) -> Seq<crate::model::PositionView> {
    v.map_values(|p: Position| p@)
}

fn exposure_symbol_list(positions: &[Position], working: &[WorkingOrder]) -> (r: Vec<String>)
    ensures
        is_sorted_set(views(r@), exposure_symbols(positions@, working@)),
{
    let mut syms: Vec<String> = Vec::new();
    let ghost mut seen: Set<Seq<char>> = Set::empty();
    proof {
        assert(views(syms@).to_set() =~= seen);
    }
    let np = positions.len();
    let mut i: usize = 0;
    while i < np
        invariant
            np == positions@.len(),
            i <= np,
            strictly_sorted(views(syms@)),
            views(syms@).to_set() == seen,
            forall|s: Seq<char>|
                seen.contains(s) <==> exists|k: int|
                    0 <= k < i && (#[trigger] positions@[k]).symbol@ == s,
        decreases np - i,
    {
        insert_sorted(&mut syms, &positions[i].symbol);
        proof {
            seen = seen.insert(positions@[i as int].symbol@);
            assert forall|s: Seq<char>|
                seen.contains(s) <==> exists|k: int|
                    0 <= k < i + 1 && (#[trigger] positions@[k]).symbol@ == s by {
                if seen.contains(s) && s != positions@[i as int].symbol@ {
                    let k = choose|k: int| 0 <= k < i && (#[trigger] positions@[k]).symbol@ == s;
                }
            }
        }
        i = i + 1;
    }
    let nw = working.len();
    let mut j: usize = 0;
    while j < nw
        invariant
            np == positions@.len(),
            nw == working@.len(),
            j <= nw,
            strictly_sorted(views(syms@)),
            views(syms@).to_set() == seen,
            forall|s: Seq<char>|
                seen.contains(s) <==> (exists|k: int|
                    0 <= k < np && (#[trigger] positions@[k]).symbol@ == s) || (exists|k: int|
                    0 <= k < j && (#[trigger] working@[k]).is_entry && working@[k].symbol@ == s),
        decreases nw - j,
    {
        if working[j].is_entry {
            insert_sorted(&mut syms, &working[j].symbol);
            proof {
                seen = seen.insert(working@[j as int].symbol@);
            }
        }
        proof {
            assert forall|s: Seq<char>|
                seen.contains(s) <==> (exists|k: int|
                    0 <= k < np && (#[trigger] positions@[k]).symbol@ == s) || (exists|k: int|
                    0 <= k < j + 1 && (#[trigger] working@[k]).is_entry && working@[k].symbol@
                    == s) by {
                if seen.contains(s) && !(working@[j as int].is_entry && s
                    == working@[j as int].symbol@) {
                    if !(exists|k: int| 0 <= k < np && (#[trigger] positions@[k]).symbol@ == s) {
                        let k = choose|k: int|
                            0 <= k < j && (#[trigger] working@[k]).is_entry && working@[k].symbol@
                                == s;
                    }
                }
                if (exists|k: int|
                    0 <= k < j + 1 && (#[trigger] working@[k]).is_entry && working@[k].symbol@
                    == s) && !(exists|k: int|
                    0 <= k < np && (#[trigger] positions@[k]).symbol@ == s) {
                    let k = choose|k: int|
                        0 <= k < j + 1 && (#[trigger] working@[k]).is_entry && working@[k].symbol@
                            == s;
                    if k < j {
                        assert(exists|k2: int|
                            0 <= k2 < j && (#[trigger] working@[k2]).is_entry
                                && working@[k2].symbol@ == s);
                    }
                }
            }
        }
        j = j + 1;
    }
    proof {
        assert(seen =~= exposure_symbols(positions@, working@));
    }
    syms
}

/// Fold *entry* working orders into positions to produce the effective exposure the
/// reconciliation safety net should target. Protective (non-entry) orders are ignored
/// here — they guard an existing position rather than changing intended exposure.
/// Symbols come out in sorted order; flat ones are left out.
pub fn effective_positions(positions: &[Position], working: &[WorkingOrder]) -> (r: Vec<Position>)
    requires
        forall|i: int| 0 <= i < positions@.len() ==> (#[trigger] positions@[i]).wf(),
        forall|i: int| 0 <= i < working@.len() ==> order_wf(#[trigger] working@[i]),
        forall|sym: Seq<char>|
            -MAX_QTY <= #[trigger] effective_net(positions@, working@, sym) <= MAX_QTY,
    ensures
        position_views(r@) == effective_for(
            positions@,
            working@,
            exposure_order(positions@, working@),
        ),
        is_sorted_set(exposure_order(positions@, working@), exposure_symbols(positions@, working@)),
{
    let syms = exposure_symbol_list(positions, working);
    let n = syms.len();
    let mut out: Vec<Position> = Vec::new();
    let mut k: usize = 0;
    proof {
        assert(views(syms@).subrange(0, 0) =~= Seq::<Seq<char>>::empty());
        assert(position_views(out@) =~= Seq::<crate::model::PositionView>::empty());
    }
    while k < n
        invariant
            n == syms@.len(),
            k <= n,
            forall|i: int| 0 <= i < working@.len() ==> order_wf(#[trigger] working@[i]),
            forall|sym: Seq<char>|
                -MAX_QTY <= #[trigger] effective_net(positions@, working@, sym) <= MAX_QTY,
            position_views(out@) == effective_for(
                positions@,
                working@,
                views(syms@).subrange(0, k as int),
            ),
        decreases n - k,
    {
        let sym = &syms[k];
        proof {
            let pre = views(syms@).subrange(0, k + 1);
            assert(pre.drop_last() =~= views(syms@).subrange(0, k as int));
            assert(pre.last() == syms@[k as int]@);
        }
        let base = crate::reconcile::find_position(positions, sym);
        let mut net: i128 = match base {
            Some(p) => p.net_qty as i128,
            None => 0,
        };
        let mut last: Option<&WorkingOrder> = None;
        let nw = working.len();
        let mut j: usize = 0;
        proof {
            assert(working@.subrange(0, 0) =~= Seq::<WorkingOrder>::empty());
        }
        while j < nw
            invariant
                nw == working@.len(),
                j <= nw,
                forall|i: int| 0 <= i < working@.len() ==> order_wf(#[trigger] working@[i]),
                net == net_of(find_pos(positions@, sym@)) + entry_sum(
                    working@.subrange(0, j as int),
                    sym@,
                ),
                -0x8000_0000_0000_0000 - j * MAX_QTY <= net <= 0x8000_0000_0000_0000 + j * MAX_QTY,
                match last {
                    Some(w) => last_entry(working@.subrange(0, j as int), sym@) == Some(*w),
                    None => last_entry(working@.subrange(0, j as int), sym@) is None,
                },
            decreases nw - j,
        {
            let w = &working[j];
            proof {
                let pre = working@.subrange(0, j + 1);
                assert(pre.drop_last() =~= working@.subrange(0, j as int));
                assert(pre.last() == working@[j as int]);
                assert(order_wf(working@[j as int]));
                assert(j < 0x1_0000_0000_0000_0000);
            }
            if w.is_entry && w.symbol == *sym {
                net = net + match w.side {
                    Side::Buy => w.quantity as i128,
                    Side::Sell => -(w.quantity as i128),
                };
                last = Some(w);
            }
            j = j + 1;
        }
        proof {
            assert(working@.subrange(0, nw as int) =~= working@);
        }
        let ghost before = position_views(out@);
        if net != 0 {
            let (currency, exchange) = match last {
                Some(w) => (w.currency.clone(), w.exchange.clone()),
                None => match base {
                    Some(p) => (p.currency.clone(), p.exchange.clone()),
                    None => (String::from_str("USD"), String::from_str("SMART")),
                },
            };
            let p = match base {
                Some(b) => Position {
                    symbol: sym.clone(),
                    currency,
                    exchange,
                    net_qty: net as i64,
                    avg_cost: b.avg_cost,
                    order_kind: b.order_kind,
                    limit_price: b.limit_price,
                    aux_price: b.aux_price,
                },
                None => Position {
                    symbol: sym.clone(),
                    currency,
                    exchange,
                    net_qty: net as i64,
                    avg_cost: 0,
                    order_kind: OrderKind::Market,
                    limit_price: 0,
                    aux_price: 0,
                },
            };
            out.push(p);
            proof {
                assert(position_views(out@) =~= before + seq![
                    effective_view(positions@, working@, sym@),
                ]);
            }
        } else {
            proof {
                assert(position_views(out@) =~= before + Seq::<crate::model::PositionView>::empty());
            }
        }
        k = k + 1;
    }
    proof {
        assert(views(syms@).subrange(0, n as int) =~= views(syms@));
        let s = choose|s: Seq<Seq<char>>| is_sorted_set(s, exposure_symbols(positions@, working@));
        lemma_sorted_set_unique(views(syms@), s, exposure_symbols(positions@, working@));
    }
    out
}

// ── laws ─────────────────────────────────────────────────────────────────────

/// Every order is the same resting order as itself.
pub proof fn law_same_order_reflexive(a: WorkingOrder)
    ensures
        same_order_spec(a, a),
{
}

proof fn lemma_first_match_at(used: Seq<bool>, current: Seq<WorkingOrder>, d: WorkingOrder, from: int, k: int)
    requires
        0 <= from <= k < current.len(),
        used.len() == current.len(),
        forall|i: int| from <= i < k ==> used[i],
        !used[k],
        same_order_spec(current[k], d),
    ensures
        first_match_from(used, current, d, from) == Some(k),
    decreases k - from,
{
    if from < k {
        lemma_first_match_at(used, current, d, from + 1, k);
    }
}

proof fn lemma_identity_prefix(d: Seq<WorkingOrder>, k: int)
    requires
        0 <= k <= d.len(),
    ensures
        greedy_match(d.subrange(0, k), d).0 == Seq::new(d.len(), |i: int| i < k),
        greedy_match(d.subrange(0, k), d).1.len() == 0,
    decreases k,
{
    if k == 0 {
        assert(d.subrange(0, 0).len() == 0);
        assert(Seq::new(d.len(), |i: int| false) =~= Seq::new(d.len(), |i: int| i < 0));
    } else {
        lemma_identity_prefix(d, k - 1);
        let pre = d.subrange(0, k);
        assert(pre.drop_last() =~= d.subrange(0, k - 1));
        assert(pre.last() == d[k - 1]);
        let used = Seq::new(d.len(), |i: int| i < k - 1);
        law_same_order_reflexive(d[k - 1]);
        lemma_first_match_at(used, d, d[k - 1], 0, k - 1);
        assert(used.update(k - 1, true) =~= Seq::new(d.len(), |i: int| i < k));
    }
}

proof fn lemma_unclaimed_all_used(current: Seq<WorkingOrder>, used: Seq<bool>)
    requires
        used.len() >= current.len(),
        forall|i: int| 0 <= i < current.len() ==> used[i],
    ensures
        unclaimed_keys(current, used).len() == 0,
    decreases current.len(),
{
    if current.len() > 0 {
        lemma_unclaimed_all_used(current.drop_last(), used);
    }
}

/// Diffing a book against itself places nothing and cancels nothing: a matched book is
/// left alone.
pub proof fn law_diff_of_matched_book_is_empty(d: Seq<WorkingOrder>)
    ensures
        greedy_match(d, d).1.len() == 0,
        unclaimed_keys(d, greedy_match(d, d).0).len() == 0,
{
    lemma_identity_prefix(d, d.len() as int);
    assert(d.subrange(0, d.len() as int) =~= d);
    lemma_unclaimed_all_used(d, greedy_match(d, d).0);
}

/// How many live orders are claimed.
pub open spec fn claimed_count(used: Seq<bool>) -> int
    decreases used.len(),
{
    if used.len() == 0 {
        0
    } else {
        claimed_count(used.drop_last()) + (if used.last() {
            1int
        } else {
            0
        })
    }
}

/// `a` is `b` with some items left out, the rest in order.
pub open spec fn is_subsequence(a: Seq<WorkingOrder>, b: Seq<WorkingOrder>) -> bool
    decreases b.len(),
{
    if b.len() == 0 {
        a.len() == 0
    } else if a.len() > 0 && a.last() == b.last() {
        is_subsequence(a.drop_last(), b.drop_last()) || is_subsequence(a, b.drop_last())
    } else {
        is_subsequence(a, b.drop_last())
    }
}

proof fn lemma_claimed_update(used: Seq<bool>, i: int)
    requires
        0 <= i < used.len(),
        !used[i],
    ensures
        claimed_count(used.update(i, true)) == claimed_count(used) + 1,
    decreases used.len(),
{
    let u = used.update(i, true);
    if i < used.len() - 1 {
        assert(u.drop_last() =~= used.drop_last().update(i, true));
        lemma_claimed_update(used.drop_last(), i);
    } else {
        assert(u.drop_last() =~= used.drop_last());
    }
}

proof fn lemma_claimed_none(n: nat)
    ensures
        claimed_count(Seq::new(n, |i: int| false)) == 0,
    decreases n,
{
    if n > 0 {
        assert(Seq::new(n, |i: int| false).drop_last() =~= Seq::new((n - 1) as nat, |i: int| false));
        lemma_claimed_none((n - 1) as nat);
    }
}

proof fn lemma_subsequence_extend(a: Seq<WorkingOrder>, b: Seq<WorkingOrder>, x: WorkingOrder)
    requires
        is_subsequence(a, b),
    ensures
        is_subsequence(a, b.push(x)),
        is_subsequence(a.push(x), b.push(x)),
{
    assert(b.push(x).drop_last() =~= b);
    assert(a.push(x).drop_last() =~= a);
}

/// Every desired order is either matched to a distinct live order or placed, and every
/// live order is either matched or cancelled: `placed + matched == desired`, and the
/// orders to place are the desired ones left unmatched, in their order.
proof fn lemma_greedy_counts(desired: Seq<WorkingOrder>, current: Seq<WorkingOrder>)
    ensures
        greedy_match(desired, current).0.len() == current.len(),
        greedy_match(desired, current).1.len() + claimed_count(greedy_match(desired, current).0)
            == desired.len(),
        is_subsequence(greedy_match(desired, current).1, desired),
    decreases desired.len(),
{
    if desired.len() == 0 {
        lemma_claimed_none(current.len());
    } else {
        let pre = desired.drop_last();
        lemma_greedy_counts(pre, current);
        lemma_greedy_len(pre, current);
        let (used, placed) = greedy_match(pre, current);
        let d = desired.last();
        assert(pre.push(d) =~= desired);
        lemma_first_match_valid(used, current, d, 0);
        lemma_subsequence_extend(placed, pre, d);
        match first_match_from(used, current, d, 0) {
            Some(i) => {
                lemma_claimed_update(used, i);
            },
            None => {},
        }
    }
}

/// The cancels and the claimed live orders make up the whole live book.
proof fn lemma_unclaimed_count(current: Seq<WorkingOrder>, used: Seq<bool>)
    requires
        used.len() == current.len(),
    ensures
        unclaimed_keys(current, used).len() + claimed_count(used) == current.len(),
    decreases current.len(),
{
    if current.len() > 0 {
        let u = used.drop_last();
        lemma_unclaimed_count(current.drop_last(), u);
        lemma_unclaimed_prefix(current.drop_last(), used);
    }
}

/// Unclaimed keys of a prefix read only the prefix's flags.
proof fn lemma_unclaimed_prefix(current: Seq<WorkingOrder>, used: Seq<bool>)
    requires
        used.len() >= current.len(),
    ensures
        unclaimed_keys(current, used) == unclaimed_keys(current, used.subrange(0, current.len() as int)),
    decreases current.len(),
{
    if current.len() > 0 {
        lemma_unclaimed_prefix(current.drop_last(), used);
        lemma_unclaimed_prefix(current.drop_last(), used.subrange(0, current.len() as int));
        assert(used.subrange(0, current.len() as int).subrange(0, current.len() - 1) =~= used.subrange(0, current.len() - 1));
    }
}

/// The diff accounts for every order: the orders to place are a subsequence of the desired
/// ones; as many desired orders are kept as live orders are (desired minus placed equals
/// live minus cancelled); and the cancels are the unclaimed live orders' keys in index
/// order.
pub proof fn law_diff_balances(desired: Seq<WorkingOrder>, current: Seq<WorkingOrder>)
    ensures
        is_subsequence(greedy_match(desired, current).1, desired),
        desired.len() - greedy_match(desired, current).1.len() == current.len() - unclaimed_keys(
            current,
            greedy_match(desired, current).0,
        ).len(),
{
    lemma_greedy_counts(desired, current);
    lemma_unclaimed_count(current, greedy_match(desired, current).0);
}

/// In long-only mode no mirrored order is an entry sell, and a protective sell never
/// exceeds the client's long in that symbol: a mirrored order can only close.
pub proof fn law_long_only_orders_only_close(
    ms: Seq<WorkingOrder>,
    p: SizingParams,
    client: Seq<Position>,
)
    ensures
        forall|k: int|
            0 <= k < desired_list(ms, p, true, client).len() && (#[trigger] desired_list(
                ms,
                p,
                true,
                client,
            )[k]).side == Side::Sell ==> !desired_list(ms, p, true, client)[k].is_entry
                && desired_list(ms, p, true, client)[k].quantity <= net_of(
                find_pos(client, desired_list(ms, p, true, client)[k].symbol@),
            ),
    decreases ms.len(),
{
    if ms.len() > 0 {
        law_long_only_orders_only_close(ms.drop_last(), p, client);
        let prev = desired_list(ms.drop_last(), p, true, client);
        let all = desired_list(ms, p, true, client);
        assert forall|k: int|
            0 <= k < all.len() && (#[trigger] all[k]).side == Side::Sell implies !all[k].is_entry
                && all[k].quantity <= net_of(find_pos(client, all[k].symbol@)) by {
            if k < prev.len() {
                assert(all[k] == prev[k]);
            }
        }
    }
}

/// Protective (non-entry) orders never change the effective exposure; an entry order
/// adds exactly its signed quantity to its own symbol.
pub proof fn law_entry_orders_add_exposure(
    ps: Seq<Position>,
    ws: Seq<WorkingOrder>,
    w: WorkingOrder,
    sym: Seq<char>,
)
    ensures
        effective_net(ps, ws.push(w), sym) == effective_net(ps, ws, sym) + (if w.is_entry
            && w.symbol@ == sym {
            signed_qty_of(w)
        } else {
            0
        }),
{
    assert(ws.push(w).drop_last() =~= ws);
}

proof fn lemma_effective_for(ps: Seq<Position>, ws: Seq<WorkingOrder>, syms: Seq<Seq<char>>)
    requires
        strictly_sorted(syms),
    ensures
        forall|i: int, j: int|
            0 <= i < j < effective_for(ps, ws, syms).len() ==> seq_lt(
                #[trigger] effective_for(ps, ws, syms)[i].symbol,
                #[trigger] effective_for(ps, ws, syms)[j].symbol,
            ),
        forall|k: int|
            0 <= k < effective_for(ps, ws, syms).len() ==> syms.contains(
                #[trigger] effective_for(ps, ws, syms)[k].symbol,
            ) && effective_for(ps, ws, syms)[k].net_qty == effective_net(
                ps,
                ws,
                effective_for(ps, ws, syms)[k].symbol,
            ) && effective_for(ps, ws, syms)[k].net_qty != 0,
        forall|s: Seq<char>|
            syms.contains(s) && #[trigger] effective_net(ps, ws, s) != 0 ==> exists|k: int|
                0 <= k < effective_for(ps, ws, syms).len() && effective_for(ps, ws, syms)[k].symbol == s,
    decreases syms.len(),
{
    if syms.len() > 0 {
        let pre = syms.drop_last();
        let last = syms.last();
        let n = pre.len() as int;
        assert(strictly_sorted(pre)) by {
            assert forall|i: int, j: int| 0 <= i < j < pre.len() implies seq_lt(#[trigger] pre[i], #[trigger] pre[j]) by {
                assert(pre[i] == syms[i] && pre[j] == syms[j]);
            }
        }
        lemma_effective_for(ps, ws, pre);
        let a = effective_for(ps, ws, pre);
        let e = effective_for(ps, ws, syms);
        assert forall|s: Seq<char>| pre.contains(s) implies seq_lt(s, last) by {
            let idx = choose|idx: int| 0 <= idx < pre.len() && pre[idx] == s;
            assert(syms[idx] == s && syms[n] == last);
        }
        assert forall|s: Seq<char>| pre.contains(s) implies syms.contains(s) by {
            let idx = choose|idx: int| 0 <= idx < pre.len() && pre[idx] == s;
            assert(syms[idx] == s);
        }
        assert(syms[n] == last);
        assert forall|i: int, j: int| 0 <= i < j < e.len() implies seq_lt(#[trigger] e[i].symbol, #[trigger] e[j].symbol) by {
            if j < a.len() {
                assert(e[i] == a[i] && e[j] == a[j]);
            } else {
                assert(e[i] == a[i]);
                assert(pre.contains(a[i].symbol));
            }
        }
        assert forall|k: int| 0 <= k < e.len() implies syms.contains(#[trigger] e[k].symbol) && e[k].net_qty
            == effective_net(ps, ws, e[k].symbol) && e[k].net_qty != 0 by {
            if k < a.len() {
                assert(e[k] == a[k]);
            }
        }
        assert forall|s: Seq<char>| syms.contains(s) && #[trigger] effective_net(ps, ws, s) != 0 implies exists|k: int|
            0 <= k < e.len() && e[k].symbol == s by {
            let idx = choose|idx: int| 0 <= idx < syms.len() && syms[idx] == s;
            if idx < n {
                assert(pre[idx] == s);
                let k = choose|k: int| 0 <= k < a.len() && a[k].symbol == s;
                assert(e[k] == a[k]);
            } else {
                assert(e[a.len() as int].symbol == s);
            }
        }
    }
}

/// The effective positions are listed in strictly increasing symbol order, one per symbol
/// whose effective net (position plus entry orders) is not flat, each carrying exactly
/// that net; a flat symbol is left out. (Protective orders never change the net: see
/// [`law_entry_orders_add_exposure`].)
pub proof fn law_effective_positions_exact(ps: Seq<Position>, ws: Seq<WorkingOrder>)
    requires
        is_sorted_set(exposure_order(ps, ws), exposure_symbols(ps, ws)),
    ensures
        forall|i: int, j: int|
            0 <= i < j < effective_for(ps, ws, exposure_order(ps, ws)).len() ==> seq_lt(
                #[trigger] effective_for(ps, ws, exposure_order(ps, ws))[i].symbol,
                #[trigger] effective_for(ps, ws, exposure_order(ps, ws))[j].symbol,
            ),
        forall|k: int|
            0 <= k < effective_for(ps, ws, exposure_order(ps, ws)).len() ==> #[trigger] effective_for(
                ps,
                ws,
                exposure_order(ps, ws),
            )[k].net_qty == effective_net(ps, ws, effective_for(ps, ws, exposure_order(ps, ws))[k].symbol)
                && effective_for(ps, ws, exposure_order(ps, ws))[k].net_qty != 0,
        forall|s: Seq<char>|
            exposure_symbols(ps, ws).contains(s) && #[trigger] effective_net(ps, ws, s) != 0 ==> exists|k: int|
                0 <= k < effective_for(ps, ws, exposure_order(ps, ws)).len() && effective_for(
                    ps,
                    ws,
                    exposure_order(ps, ws),
                )[k].symbol == s,
{
    let o = exposure_order(ps, ws);
    lemma_effective_for(ps, ws, o);
    assert forall|s: Seq<char>| exposure_symbols(ps, ws).contains(s) implies o.contains(s) by {
        assert(o.to_set().contains(s));
    }
}

// ── material changes are replaced ────────────────────────────────────────────

/// The live order's relevant price is more than one cent and more than 0.5% of the
/// desired order's price away from it.
pub open spec fn materially_repriced(live: WorkingOrder, desired: WorkingOrder) -> bool {
    let gap = abs(relevant_price_spec(live) - relevant_price_spec(desired));
    &&& 100 * gap > PRICE_SCALE
    &&& 200 * gap > abs(relevant_price_spec(desired))
}

/// The live order's quantity is more than one share and more than 3% of the larger
/// quantity away from the desired one's.
pub open spec fn materially_resized(live: WorkingOrder, desired: WorkingOrder) -> bool {
    let gap = abs(live.quantity - desired.quantity);
    let larger = if abs(live.quantity as int) > abs(desired.quantity as int) {
        abs(live.quantity as int)
    } else {
        abs(desired.quantity as int)
    };
    gap > 1 && 100 * gap > 3 * larger
}

/// The live order cannot stand for the desired one: another symbol, side or kind, or a
/// material change of quantity or price.
pub open spec fn materially_different(live: WorkingOrder, desired: WorkingOrder) -> bool {
    ||| live.symbol@ != desired.symbol@
    ||| live.side != desired.side
    ||| live.kind != desired.kind
    ||| materially_resized(live, desired)
    ||| materially_repriced(live, desired)
}

proof fn lemma_unclaimed_none_used(current: Seq<WorkingOrder>, used: Seq<bool>)
    requires
        used.len() >= current.len(),
        forall|i: int| 0 <= i < current.len() ==> !used[i],
    ensures
        unclaimed_keys(current, used) == current.map_values(|w: WorkingOrder| order_key(w)),
    decreases current.len(),
{
    if current.len() > 0 {
        lemma_unclaimed_none_used(current.drop_last(), used);
        assert(current.map_values(|w: WorkingOrder| order_key(w)) =~= current.drop_last().map_values(
            |w: WorkingOrder| order_key(w),
        ).push(order_key(current.last())));
    }
}

/// A material change is a replace: when every live order differs from a desired order in
/// symbol, side or kind, or is priced more than a cent and more than 0.5% away, or sized
/// more than a share and more than 3% away, none of them is kept for it — the desired
/// order is placed and every live order is cancelled (their keys, in order).
pub proof fn law_material_reprice_replaces(d: WorkingOrder, current: Seq<WorkingOrder>)
    requires
        forall|i: int| 0 <= i < current.len() ==> materially_different(#[trigger] current[i], d),
    ensures
        greedy_match(seq![d], current).1 == seq![d],
        unclaimed_keys(current, greedy_match(seq![d], current).0) == current.map_values(
            |w: WorkingOrder| order_key(w),
        ),
{
    let ds = seq![d];
    assert(ds.drop_last() =~= Seq::<WorkingOrder>::empty());
    assert(ds.last() == d);
    let used = Seq::new(current.len(), |i: int| false);
    assert(greedy_match(ds.drop_last(), current) == (used, Seq::<WorkingOrder>::empty()));
    lemma_first_match_valid(used, current, d, 0);
    assert forall|k: int| 0 <= k < current.len() implies !same_order_spec(current[k], d) by {
        assert(materially_different(current[k], d));
    }
    if first_match_from(used, current, d, 0) is Some {
        let i = first_match_from(used, current, d, 0)->0;
        assert(!same_order_spec(current[i], d));
    }
    assert(greedy_match(ds, current) == (used, Seq::<WorkingOrder>::empty().push(d)));
    assert(Seq::<WorkingOrder>::empty().push(d) =~= seq![d]);
    lemma_unclaimed_none_used(current, used);
}

// ── long-only protective sells ───────────────────────────────────────────────

/// In long-only mode a protective sell mirrors the master's scaled quantity, capped at
/// the client's long: `min(scaled, long)` — never more than either, and exactly the scaled
/// quantity when that is below the long.
pub proof fn law_protective_sell_is_capped_scaled(
    mo: WorkingOrder,
    p: SizingParams,
    client: Seq<Position>,
)
    requires
        mo.side == Side::Sell,
        !mo.is_entry,
        scaled_order_qty(mo.quantity as int, p) matches Some(q) && q > 0,
        net_of(find_pos(client, mo.symbol@)) > 0,
    ensures
        ({
            let q = scaled_order_qty(mo.quantity as int, p)->0;
            let long = net_of(find_pos(client, mo.symbol@));
            &&& desired_list(seq![mo], p, true, client).len() == 1
            &&& desired_list(seq![mo], p, true, client)[0].quantity <= q
            &&& desired_list(seq![mo], p, true, client)[0].quantity <= long
            &&& (desired_list(seq![mo], p, true, client)[0].quantity == q
                || desired_list(seq![mo], p, true, client)[0].quantity == long)
            &&& (q <= long ==> desired_list(seq![mo], p, true, client)[0].quantity == q)
            &&& (long <= q ==> desired_list(seq![mo], p, true, client)[0].quantity == long)
        }),
{
    let ms = seq![mo];
    assert(ms.drop_last() =~= Seq::<WorkingOrder>::empty());
    assert(ms.last() == mo);
    let q = scaled_order_qty(mo.quantity as int, p)->0;
    assert(q <= MAX_QTY);
    assert(desired_list(ms.drop_last(), p, true, client) == Seq::<WorkingOrder>::empty());
    assert(desired_qty(mo, p, true, client) is Some);
    let r = desired_list(ms, p, true, client);
    assert(r =~= Seq::<WorkingOrder>::empty() + seq![with_qty(mo, desired_qty(mo, p, true, client)->0)]);
}

/// An order within tolerance is kept: a live order of the same symbol, side and kind,
/// within a share of the desired quantity and a cent of its relevant price, stands for it
/// — nothing is placed and nothing cancelled.
pub proof fn law_close_order_is_kept(d: WorkingOrder, c: WorkingOrder)
    requires
        c.symbol@ == d.symbol@,
        c.side == d.side,
        c.kind == d.kind,
        abs(c.quantity - d.quantity) <= 1,
        abs(relevant_price_spec(c) - relevant_price_spec(d)) * 100 <= PRICE_SCALE,
    ensures
        greedy_match(seq![d], seq![c]).1.len() == 0,
        unclaimed_keys(seq![c], greedy_match(seq![d], seq![c]).0).len() == 0,
{
    let ds = seq![d];
    let cs = seq![c];
    assert(ds.drop_last() =~= Seq::<WorkingOrder>::empty());
    assert(ds.last() == d);
    let used = Seq::new(1, |i: int| false);
    assert(greedy_match(ds.drop_last(), cs) == (used, Seq::<WorkingOrder>::empty()));
    assert(same_order_spec(cs[0], d));
    assert(first_match_from(used, cs, d, 0) == Some(0int));
    let u2 = used.update(0, true);
    assert(greedy_match(ds, cs) == (u2, Seq::<WorkingOrder>::empty()));
    assert(cs.drop_last() =~= Seq::<WorkingOrder>::empty());
    assert(u2[0]);
    assert(unclaimed_keys(cs.drop_last(), u2) == Seq::<Seq<char>>::empty());
    assert(unclaimed_keys(cs, u2) =~= Seq::<Seq<char>>::empty());
}

/// Outside long-only mode (or for a buy) every mirrored order carries exactly the master's
/// scaled quantity, on the master's side.
pub proof fn law_mirrored_order_is_scaled(mo: WorkingOrder, p: SizingParams, long_only: bool, client: Seq<Position>)
    requires
        !long_only || mo.side == Side::Buy,
        scaled_order_qty(mo.quantity as int, p) matches Some(q) && q > 0,
    ensures
        desired_list(seq![mo], p, long_only, client).len() == 1,
        desired_list(seq![mo], p, long_only, client)[0].quantity == scaled_order_qty(mo.quantity as int, p)->0,
        desired_list(seq![mo], p, long_only, client)[0].side == mo.side,
        desired_list(seq![mo], p, long_only, client)[0].symbol == mo.symbol,
{
    let ms = seq![mo];
    assert(ms.drop_last() =~= Seq::<WorkingOrder>::empty());
    assert(ms.last() == mo);
    assert(desired_list(ms.drop_last(), p, long_only, client) == Seq::<WorkingOrder>::empty());
    assert(desired_qty(mo, p, long_only, client) is Some);
    let r = desired_list(ms, p, long_only, client);
    assert(r =~= Seq::<WorkingOrder>::empty() + seq![with_qty(mo, desired_qty(mo, p, long_only, client)->0)]);
}
} // verus!
