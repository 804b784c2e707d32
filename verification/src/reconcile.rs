//! The reconciliation engine — the safety core of Pax Americana.
//!
//! Given the master's net positions and the client's net positions, it produces a set
//! of [`TradeIntent`]s that move the client toward a proportionally-scaled copy of the
//! master's *structure*. It never emits an order derived from a raw action verb, so it
//! cannot accidentally flip a flat/long book into a short when the master simply closes.
//!
//! Key guarantees (each proved below):
//! * If the master is flat in a symbol, the client target is `0` → the client only ever
//!   trades *toward flat* for that symbol and stops there.
//! * Long-only mode clamps every target to `>= 0`, so no short can ever be opened.
//! * Zero-crossing reconciliations (e.g. client long, master genuinely short) are split
//!   into an explicit flatten leg followed by an open leg, so a single fill can never be
//!   misread as "go short by selling".
//! * Safety guards refuse to act when the master is disconnected or reports an
//!   implausibly empty book while the client holds many positions.

use vstd::prelude::*;

use crate::model::{OrderKind, Position, Side, MAX_QTY};
use crate::sizing::{balances_known, opt_int, target_net_qty, target_spec, SizingParams};
use crate::symbols::{insert_sorted, is_sorted_set, lemma_sorted_set_unique, strictly_sorted,
    views};
use crate::text::{decimal, push_decimal, seq_lt};

verus! {

/// Why an intent was generated — surfaced in the UI log for auditability.
#[derive(Debug, Clone, Copy, PartialEq, Eq, Structural)]
pub enum IntentReason {
    /// Master holds it, client is flat — open toward the target.
    OpenMissing,
    /// Increase an existing same-direction position toward the target.
    IncreaseToTarget,
    /// Reduce an existing position toward a smaller (same-sign) target.
    ReduceToTarget,
    /// Client holds it, master is flat — close the orphan to flat.
    CloseOrphan,
    /// First leg of a direction flip: close the current position to flat.
    FlattenLeg,
    /// Second leg of a direction flip: open the new-direction position.
    OpenLeg,
}

/// The log label of a reason.
pub open spec fn reason_label(r: IntentReason) -> Seq<char> {
    match r {
        IntentReason::OpenMissing => "open missing"@,
        IntentReason::IncreaseToTarget => "increase"@,
        IntentReason::ReduceToTarget => "reduce"@,
        IntentReason::CloseOrphan => "close"@,
        IntentReason::FlattenLeg => "flatten"@,
        IntentReason::OpenLeg => "open"@,
    }
}

impl IntentReason {
    pub fn label(self) -> (r: &'static str)
        ensures
            r@ == reason_label(self),
    {
        match self {
            IntentReason::OpenMissing => "open missing",
            IntentReason::IncreaseToTarget => "increase",
            IntentReason::ReduceToTarget => "reduce",
            IntentReason::CloseOrphan => "close",
            IntentReason::FlattenLeg => "flatten",
            IntentReason::OpenLeg => "open",
        }
    }
}

/// A concrete, side-and-quantity order the client should place. `qty` is always
/// strictly positive; direction lives in `side`.
#[derive(Debug)]
pub struct TradeIntent {
    pub symbol: String,
    pub currency: String,
    pub exchange: String,
    pub side: Side,
    pub qty: i64,
    pub kind: OrderKind,
    pub limit_price: i64,
    pub aux_price: i64,
    pub reason: IntentReason,
}

/// The mathematical content of a [`TradeIntent`].
pub struct IntentView {
    pub symbol: Seq<char>,
    pub currency: Seq<char>,
    pub exchange: Seq<char>,
    pub side: Side,
    pub qty: int,
    pub kind: OrderKind,
    pub limit_price: int,
    pub aux_price: int,
    pub reason: IntentReason,
}

impl View for TradeIntent {
    type V = IntentView;

    open spec fn view(&self) -> IntentView {
        IntentView {
            symbol: self.symbol@,
            currency: self.currency@,
            exchange: self.exchange@,
            side: self.side,
            qty: self.qty as int,
            kind: self.kind,
            limit_price: self.limit_price as int,
            aux_price: self.aux_price as int,
            reason: self.reason,
        }
    }
}

/// A symbol the engine deliberately did not act on, with a human reason.
#[derive(Debug)]
pub struct SkipNote {
    pub symbol: String,
    pub reason: String,
}

/// Result of a reconciliation pass.
#[derive(Debug)]
pub struct ReconcileResult {
    pub intents: Vec<TradeIntent>,
    pub skipped: Vec<SkipNote>,
    /// When true, the engine refused to act at all (a global safety guard tripped).
    pub blocked: bool,
    pub blocked_reason: Option<String>,
}

impl Default for ReconcileResult {
    fn default() -> (r: ReconcileResult)
        ensures
            r.intents@.len() == 0,
            r.skipped@.len() == 0,
            !r.blocked,
            r.blocked_reason is None,
    {
        ReconcileResult {
            intents: Vec::new(),
            skipped: Vec::new(),
            blocked: false,
            blocked_reason: None,
        }
    }
}

/// Everything the engine needs for one pass.
pub struct ReconcileInput<'a> {
    pub master: &'a [Position],
    pub client: &'a [Position],
    pub master_connected: bool,
    pub sizing: SizingParams,
    pub long_only: bool,
    /// Split direction-flipping reconciliations into flatten + open legs.
    pub split_zero_cross: bool,
    /// If the master reports an empty book while the client holds more than this many
    /// positions, treat it as a likely connectivity glitch and refuse to act.
    pub empty_master_guard: usize,
    /// Optional per-symbol signed target overrides (symbol, target); a later entry for a
    /// symbol overrides an earlier one. When `Some`, the engine uses these fixed targets
    /// instead of recomputing them from `sizing` on every pass. This lets the caller LOCK
    /// targets (computed proportionally at the moment the master's ledger changes) so a
    /// matched book isn't resized on every balance/price tick — only when the master
    /// itself adjusts. A symbol absent from the list targets `0` (close).
    pub targets: Option<&'a [(String, i64)]>,
}

impl<'a> ReconcileInput<'a> {
    pub fn new(master: &'a [Position], client: &'a [Position]) -> (r: Self)
        ensures
            r.master@ == master@,
            r.client@ == client@,
            r.master_connected,
            r.sizing.multiplier == crate::model::PRICE_SCALE,
            r.sizing.master_balance == 0,
            r.sizing.client_balance == 0,
            r.sizing.max_position_notional == 0,
            r.sizing.max_position_qty == 0,
            r.sizing.force_min_one,
            !r.long_only,
            r.split_zero_cross,
            r.empty_master_guard == 2,
            r.targets is None,
    {
        ReconcileInput {
            master,
            client,
            master_connected: true,
            sizing: SizingParams::default(),
            long_only: false,
            split_zero_cross: true,
            empty_master_guard: 2,
            targets: None,
        }
    }
}

// ── specification ────────────────────────────────────────────────────────────

/// Share counts and locked targets lie within the range the engine deals in.
pub open spec fn input_wf(input: ReconcileInput) -> bool {
    &&& forall|i: int| 0 <= i < input.master@.len() ==> (#[trigger] input.master@[i]).wf()
    &&& forall|i: int| 0 <= i < input.client@.len() ==> (#[trigger] input.client@[i]).wf()
    &&& match input.targets {
        Some(ts) => forall|i: int|
            0 <= i < ts@.len() ==> -MAX_QTY <= (#[trigger] ts@[i]).1 <= MAX_QTY,
        None => true,
    }
}

/// The position for `sym` in `ps`; a later entry overrides an earlier one.
pub open spec fn find_pos(ps: Seq<Position>, sym: Seq<char>) -> Option<Position>
    decreases ps.len(),
{
    if ps.len() == 0 {
        None
    } else if ps.last().symbol@ == sym {
        Some(ps.last())
    } else {
        find_pos(ps.drop_last(), sym)
    }
}

/// The locked target for `sym`; a later entry overrides an earlier one.
pub open spec fn find_target(ts: Seq<(String, i64)>, sym: Seq<char>) -> Option<i64>
    decreases ts.len(),
{
    if ts.len() == 0 {
        None
    } else if ts.last().0@ == sym {
        Some(ts.last().1)
    } else {
        find_target(ts.drop_last(), sym)
    }
}

/// The signed net quantity of an optional position (flat when absent).
pub open spec fn net_of(p: Option<Position>) -> int {
    match p {
        Some(q) => q.net_qty as int,
        None => 0,
    }
}

/// Every symbol held by the master or the client.
pub open spec fn all_symbols(input: ReconcileInput) -> Set<Seq<char>> {
    Set::new(
        |s: Seq<char>|
            (exists|i: int| 0 <= i < input.master@.len() && input.master@[i].symbol@ == s) || (
            exists|i: int| 0 <= i < input.client@.len() && input.client@[i].symbol@ == s),
    )
}

/// The symbols in the order the engine walks them: sorted, without duplicates.
pub open spec fn symbol_order(input: ReconcileInput) -> Seq<Seq<char>> {
    choose|s: Seq<Seq<char>>| is_sorted_set(s, all_symbols(input))
}

/// The client's target for `sym`: the locked target (0 when absent) if targets are
/// locked, else the proportional sizing of the master's position; clamped at 0 in
/// long-only mode. `None` when sizing is undefined for the symbol.
pub open spec fn symbol_target(input: ReconcileInput, sym: Seq<char>) -> Option<int> {
    let m = find_pos(input.master@, sym);
    let price: int = match m {
        Some(p) => p.avg_cost as int,
        None => 0,
    };
    let raw = match input.targets {
        Some(ts) => Some(
            match find_target(ts@, sym) {
                Some(t) => t as int,
                None => 0,
            },
        ),
        None => target_spec(net_of(m), price, input.sizing),
    };
    match raw {
        Some(t) => Some(
            if input.long_only && t < 0 {
                0
            } else {
                t
            },
        ),
        None => None,
    }
}

/// How a single-leg move from `current` to `target` is classified.
pub open spec fn classify_spec(current: int, target: int) -> IntentReason {
    if current == 0 {
        IntentReason::OpenMissing
    } else if target == 0 {
        IntentReason::CloseOrphan
    } else if crate::sizing::abs(target) > crate::sizing::abs(current) {
        IntentReason::IncreaseToTarget
    } else {
        IntentReason::ReduceToTarget
    }
}

/// The position moves from one side of zero to the other.
pub open spec fn crosses_zero(current: int, target: int) -> bool {
    (current > 0 && target < 0) || (current < 0 && target > 0)
}

pub open spec fn side_closing(q: int) -> Side {
    if q > 0 {
        Side::Sell
    } else {
        Side::Buy
    }
}

pub open spec fn side_toward(delta: int) -> Side {
    if delta >= 0 {
        Side::Buy
    } else {
        Side::Sell
    }
}

/// The intents the engine emits for one symbol.
pub open spec fn symbol_intents(input: ReconcileInput, sym: Seq<char>) -> Seq<IntentView> {
    let m = find_pos(input.master@, sym);
    let c = find_pos(input.client@, sym);
    let current = net_of(c);
    match symbol_target(input, sym) {
        None => Seq::empty(),
        Some(target) => {
            let delta = target - current;
            if delta == 0 {
                Seq::empty()
            } else {
                let (kind, lp, ap) = match m {
                    Some(p) => (p.order_kind, p.limit_price as int, p.aux_price as int),
                    None => (OrderKind::Market, 0int, 0int),
                };
                let currency = match m {
                    Some(p) => p.currency@,
                    None => match c {
                        Some(p) => p.currency@,
                        None => "USD"@,
                    },
                };
                let exchange = match m {
                    Some(p) => p.exchange@,
                    None => match c {
                        Some(p) => p.exchange@,
                        None => "SMART"@,
                    },
                };
                if crosses_zero(current, target) && input.split_zero_cross {
                    seq![
                        IntentView {
                            symbol: sym,
                            currency,
                            exchange,
                            side: side_closing(current),
                            qty: crate::sizing::abs(current),
                            kind: OrderKind::Market,
                            limit_price: 0,
                            aux_price: 0,
                            reason: IntentReason::FlattenLeg,
                        },
                        IntentView {
                            symbol: sym,
                            currency,
                            exchange,
                            side: side_toward(target),
                            qty: crate::sizing::abs(target),
                            kind,
                            limit_price: lp,
                            aux_price: ap,
                            reason: IntentReason::OpenLeg,
                        },
                    ]
                } else {
                    let reason = classify_spec(current, target);
                    let closing = reason == IntentReason::ReduceToTarget || reason
                        == IntentReason::CloseOrphan;
                    seq![
                        IntentView {
                            symbol: sym,
                            currency,
                            exchange,
                            side: side_toward(delta),
                            qty: crate::sizing::abs(delta),
                            kind: if closing {
                                OrderKind::Market
                            } else {
                                kind
                            },
                            limit_price: if closing {
                                0
                            } else {
                                lp
                            },
                            aux_price: if closing {
                                0
                            } else {
                                ap
                            },
                            reason,
                        },
                    ]
                }
            }
        },
    }
}

/// The intents for a list of symbols, in order.
pub open spec fn plan_for(input: ReconcileInput, syms: Seq<Seq<char>>) -> Seq<IntentView>
    decreases syms.len(),
{
    if syms.len() == 0 {
        Seq::empty()
    } else {
        plan_for(input, syms.drop_last()) + symbol_intents(input, syms.last())
    }
}

/// The full set of intents of an unblocked pass.
pub open spec fn plan(input: ReconcileInput) -> Seq<IntentView> {
    plan_for(input, symbol_order(input))
}

/// The global safety guard that trips for this input, if any (as the reason text).
pub open spec fn block_reason(input: ReconcileInput) -> Option<Seq<char>> {
    if !input.master_connected {
        Some("standing by — sync paused"@)
    } else if !balances_known(input.sizing) {
        Some("balances not yet known — sync skipped (sizing undefined)"@)
    } else if input.master@.len() == 0 && input.client@.len() > input.empty_master_guard {
        Some(
            "0 target positions but local book holds "@ + decimal(input.client@.len())
                + " — holding (safety)"@,
        )
    } else {
        None
    }
}

/// The views of a list of intents.
pub open spec fn intent_views(v: Seq<TradeIntent>) -> Seq<IntentView> {
    v.map_values(|i: TradeIntent| i@)
}

// ── implementation ───────────────────────────────────────────────────────────

/// The position for `sym` (a later entry overrides an earlier one).
pub(crate) fn find_position<'b>(ps: &'b [Position], sym: &String) -> (r: Option<&'b Position>)
    ensures
        match r {
            Some(p) => find_pos(ps@, sym@) == Some(*p),
            None => find_pos(ps@, sym@) is None,
        },
{
    let mut i = ps.len();
    proof {
        assert(ps@.subrange(0, ps@.len() as int) =~= ps@);
    }
    while i > 0
        invariant
            i <= ps@.len(),
            find_pos(ps@, sym@) == find_pos(ps@.subrange(0, i as int), sym@),
        decreases i,
    {
        proof {
            let pre = ps@.subrange(0, i as int);
            assert(pre.drop_last() =~= ps@.subrange(0, i - 1));
            assert(pre.last() == ps@[i - 1]);
        }
        if ps[i - 1].symbol == *sym {
            return Some(&ps[i - 1]);
        }
        i = i - 1;
    }
    None
}

/// The locked target for `sym` (a later entry overrides an earlier one).
pub(crate) fn find_locked(ts: &[(String, i64)], sym: &String) -> (r: Option<i64>)
    ensures
        r == find_target(ts@, sym@),
{
    let mut i = ts.len();
    proof {
        assert(ts@.subrange(0, ts@.len() as int) =~= ts@);
    }
    while i > 0
        invariant
            i <= ts@.len(),
            find_target(ts@, sym@) == find_target(ts@.subrange(0, i as int), sym@),
        decreases i,
    {
        proof {
            let pre = ts@.subrange(0, i as int);
            assert(pre.drop_last() =~= ts@.subrange(0, i - 1));
            assert(pre.last() == ts@[i - 1]);
        }
        if ts[i - 1].0 == *sym {
            return Some(ts[i - 1].1);
        }
        i = i - 1;
    }
    None
}

fn classify(current: i64, target: i64) -> (r: IntentReason)
    requires
        -MAX_QTY <= current <= MAX_QTY,
        -MAX_QTY <= target <= MAX_QTY,
    ensures
        r == classify_spec(current as int, target as int),
{
    let ac = if current < 0 {
        -current
    } else {
        current
    };
    let at = if target < 0 {
        -target
    } else {
        target
    };
    if current == 0 {
        IntentReason::OpenMissing
    } else if target == 0 {
        IntentReason::CloseOrphan
    } else if at > ac {
        IntentReason::IncreaseToTarget
    } else {
        IntentReason::ReduceToTarget
    }
}

/// Compute the target for one symbol.
fn compute_target(input: &ReconcileInput, sym: &String, master_pos: Option<&Position>) -> (r:
    Option<i64>)
    requires
        input_wf(*input),
        match master_pos {
            Some(p) => find_pos(input.master@, sym@) == Some(*p),
            None => find_pos(input.master@, sym@) is None,
        },
    ensures
        opt_int(r) == symbol_target(*input, sym@),
        r matches Some(t) ==> -MAX_QTY <= t <= MAX_QTY,
{
    let master_net: i64 = match master_pos {
        Some(p) => p.net_qty,
        None => 0,
    };
    let price: i64 = match master_pos {
        Some(p) => p.avg_cost,
        None => 0,
    };
    let raw: Option<i64> = match input.targets {
        Some(ts) => {
            let t = find_locked(ts, sym);
            proof {
                if let Some(v) = t {
                    lemma_find_target_in(ts@, sym@);
                }
            }
            Some(
                match t {
                    Some(v) => v,
                    None => 0,
                },
            )
        },
        None => target_net_qty(master_net, price, &input.sizing),
    };
    match raw {
        Some(t) => Some(
            if input.long_only && t < 0 {
                0
            } else {
                t
            },
        ),
        None => None,
    }
}

/// A found locked target is one of the listed entries.
proof fn lemma_find_target_in(ts: Seq<(String, i64)>, sym: Seq<char>)
    ensures
        find_target(ts, sym) matches Some(v) ==> exists|i: int|
            0 <= i < ts.len() && (#[trigger] ts[i]).1 == v,
    decreases ts.len(),
{
    if ts.len() > 0 {
        if ts.last().0@ == sym {
            assert(ts[ts.len() - 1].1 == ts.last().1);
        } else {
            lemma_find_target_in(ts.drop_last(), sym);
            if let Some(v) = find_target(ts, sym) {
                let i = choose|i: int|
                    0 <= i < ts.drop_last().len() && (#[trigger] ts.drop_last()[i]).1 == v;
                assert(ts[i] == ts.drop_last()[i]);
            }
        }
    }
}

/// A found position is one of the listed entries.
proof fn lemma_find_pos_in(ps: Seq<Position>, sym: Seq<char>)
    ensures
        find_pos(ps, sym) matches Some(p) ==> exists|i: int| 0 <= i < ps.len() && ps[i] == p,
        find_pos(ps, sym) matches Some(p) ==> p.symbol@ == sym,
    decreases ps.len(),
{
    if ps.len() > 0 {
        if ps.last().symbol@ == sym {
            assert(ps[ps.len() - 1] == ps.last());
        } else {
            lemma_find_pos_in(ps.drop_last(), sym);
            if let Some(p) = find_pos(ps, sym) {
                let i = choose|i: int| 0 <= i < ps.drop_last().len() && ps.drop_last()[i] == p;
                assert(ps[i] == ps.drop_last()[i]);
            }
        }
    }
}

/// Emit the intents for one symbol.
fn reconcile_symbol(input: &ReconcileInput, sym: &String, out: &mut Vec<TradeIntent>)
    requires
        input_wf(*input),
    ensures
        intent_views(final(out)@) == intent_views(old(out)@) + symbol_intents(*input, sym@),
{
    let ghost start = intent_views(out@);
    let master_pos = find_position(input.master, sym);
    let client_pos = find_position(input.client, sym);
    proof {
        lemma_find_pos_in(input.master@, sym@);
        lemma_find_pos_in(input.client@, sym@);
    }
    let current: i64 = match client_pos {
        Some(p) => p.net_qty,
        None => 0,
    };
    let target = match compute_target(input, sym, master_pos) {
        Some(t) => t,
        None => {
            proof {
                assert(intent_views(out@) =~= start + symbol_intents(*input, sym@));
            }
            return ;
        },
    };
    let delta = target - current;
    if delta == 0 {
        proof {
            assert(intent_views(out@) =~= start + symbol_intents(*input, sym@));
        }
        return ;
    }
    // Carry the master's order-type hint for opening/increasing legs.
    let (kind, limit_price, aux_price) = match master_pos {
        Some(p) => (p.order_kind, p.limit_price, p.aux_price),
        None => (OrderKind::Market, 0, 0),
    };
    let currency = match master_pos {
        Some(p) => p.currency.clone(),
        None => match client_pos {
            Some(p) => p.currency.clone(),
            None => String::from_str("USD"),
        },
    };
    let exchange = match master_pos {
        Some(p) => p.exchange.clone(),
        None => match client_pos {
            Some(p) => p.exchange.clone(),
            None => String::from_str("SMART"),
        },
    };
    let crosses = (current > 0 && target < 0) || (current < 0 && target > 0);
    if crosses && input.split_zero_cross {
        // Leg 1: flatten the current book to zero with a guaranteed market order.
        out.push(
            TradeIntent {
                symbol: sym.clone(),
                currency: currency.clone(),
                exchange: exchange.clone(),
                side: Side::closing(current),
                qty: if current < 0 {
                    -current
                } else {
                    current
                },
                kind: OrderKind::Market,
                limit_price: 0,
                aux_price: 0,
                reason: IntentReason::FlattenLeg,
            },
        );
        // Leg 2: open the new-direction target.
        out.push(
            TradeIntent {
                symbol: sym.clone(),
                currency,
                exchange,
                side: Side::from_delta(target),
                qty: if target < 0 {
                    -target
                } else {
                    target
                },
                kind,
                limit_price,
                aux_price,
                reason: IntentReason::OpenLeg,
            },
        );
        proof {
            assert(intent_views(out@) =~= start + symbol_intents(*input, sym@));
        }
        return ;
    }
    // Single-leg move toward the target (no zero crossing, or splitting disabled).
    let side = Side::from_delta(delta);
    let reason = classify(current, target);
    // Reducing/closing always uses a market order to guarantee the exit fills;
    // opening/increasing carries the master's order-type hint.
    let closing = match reason {
        IntentReason::ReduceToTarget | IntentReason::CloseOrphan => true,
        _ => false,
    };
    let (eff_kind, eff_lmt, eff_aux) = if closing {
        (OrderKind::Market, 0, 0)
    } else {
        (kind, limit_price, aux_price)
    };
    out.push(
        TradeIntent {
            symbol: sym.clone(),
            currency,
            exchange,
            side,
            qty: if delta < 0 {
                -delta
            } else {
                delta
            },
            kind: eff_kind,
            limit_price: eff_lmt,
            aux_price: eff_aux,
            reason,
        },
    );
    proof {
        assert(intent_views(out@) =~= start + symbol_intents(*input, sym@));
    }
}

/// The sorted, duplicate-free list of every symbol held by the master or the client.
fn collect_symbols(input: &ReconcileInput) -> (r: Vec<String>)
    ensures
        is_sorted_set(views(r@), all_symbols(*input)),
{
    let mut syms: Vec<String> = Vec::new();
    let ghost mut seen: Set<Seq<char>> = Set::empty();
    proof {
        assert(views(syms@).to_set() =~= seen);
    }
    let nm = input.master.len();
    let mut i: usize = 0;
    while i < nm
        invariant
            nm == input.master@.len(),
            i <= nm,
            strictly_sorted(views(syms@)),
            views(syms@).to_set() == seen,
            forall|s: Seq<char>|
                seen.contains(s) <==> exists|k: int|
                    0 <= k < i && (#[trigger] input.master@[k]).symbol@ == s,
        decreases nm - i,
    {
        insert_sorted(&mut syms, &input.master[i].symbol);
        proof {
            seen = seen.insert(input.master@[i as int].symbol@);
            assert forall|s: Seq<char>|
                seen.contains(s) <==> exists|k: int|
                    0 <= k < i + 1 && (#[trigger] input.master@[k]).symbol@ == s by {
                if seen.contains(s) && s != input.master@[i as int].symbol@ {
                    let k = choose|k: int|
                        0 <= k < i && (#[trigger] input.master@[k]).symbol@ == s;
                }
            }
        }
        i = i + 1;
    }
    let nc = input.client.len();
    let mut j: usize = 0;
    while j < nc
        invariant
            nm == input.master@.len(),
            nc == input.client@.len(),
            j <= nc,
            strictly_sorted(views(syms@)),
            views(syms@).to_set() == seen,
            forall|s: Seq<char>|
                seen.contains(s) <==> (exists|k: int|
                    0 <= k < nm && (#[trigger] input.master@[k]).symbol@ == s) || (exists|k: int|
                    0 <= k < j && (#[trigger] input.client@[k]).symbol@ == s),
        decreases nc - j,
    {
        insert_sorted(&mut syms, &input.client[j].symbol);
        proof {
            seen = seen.insert(input.client@[j as int].symbol@);
            assert forall|s: Seq<char>|
                seen.contains(s) <==> (exists|k: int|
                    0 <= k < nm && (#[trigger] input.master@[k]).symbol@ == s) || (exists|k: int|
                    0 <= k < j + 1 && (#[trigger] input.client@[k]).symbol@ == s) by {
                if seen.contains(s) && s != input.client@[j as int].symbol@ {
                    if !(exists|k: int| 0 <= k < nm && (#[trigger] input.master@[k]).symbol@ == s) {
                        let k = choose|k: int|
                            0 <= k < j && (#[trigger] input.client@[k]).symbol@ == s;
                    }
                }
            }
        }
        j = j + 1;
    }
    proof {
        assert(seen =~= all_symbols(*input));
    }
    syms
}

/// Run one reconciliation pass.
pub fn reconcile(input: &ReconcileInput) -> (r: ReconcileResult)
    requires
        input_wf(*input),
    ensures
        r.skipped@.len() == 0,
        match block_reason(*input) {
            Some(msg) => {
                &&& r.blocked
                &&& r.blocked_reason matches Some(s) && s@ == msg
                &&& r.intents@.len() == 0
            },
            None => {
                &&& !r.blocked
                &&& r.blocked_reason is None
                &&& intent_views(r.intents@) == plan(*input)
                &&& is_sorted_set(symbol_order(*input), all_symbols(*input))
            },
        },
{
    let mut result = ReconcileResult::default();

    // ── Global safety guards ────────────────────────────────────────────────
    if !input.master_connected {
        result.blocked = true;
        result.blocked_reason = Some(String::from_str("standing by — sync paused"));
        return result;
    }
    if input.sizing.ratio().is_none() {
        result.blocked = true;
        result.blocked_reason = Some(
            String::from_str("balances not yet known — sync skipped (sizing undefined)"),
        );
        return result;
    }
    if input.master.len() == 0 && input.client.len() > input.empty_master_guard {
        let mut msg = String::from_str("0 target positions but local book holds ");
        push_decimal(&mut msg, input.client.len() as u64);
        msg.append(" — holding (safety)");
        result.blocked = true;
        result.blocked_reason = Some(msg);
        return result;
    }

    // ── Walk the union of symbols in sorted order ────────────────────────────
    let symbols = collect_symbols(input);
    let n = symbols.len();
    let mut k: usize = 0;
    proof {
        assert(views(symbols@).subrange(0, 0) =~= Seq::<Seq<char>>::empty());
        assert(intent_views(result.intents@) =~= Seq::<IntentView>::empty());
    }
    while k < n
        invariant
            n == symbols@.len(),
            k <= n,
            input_wf(*input),
            !result.blocked,
            result.blocked_reason is None,
            result.skipped@.len() == 0,
            intent_views(result.intents@) == plan_for(
                *input,
                views(symbols@).subrange(0, k as int),
            ),
        decreases n - k,
    {
        reconcile_symbol(input, &symbols[k], &mut result.intents);
        proof {
            let pre = views(symbols@).subrange(0, k + 1);
            assert(pre.drop_last() =~= views(symbols@).subrange(0, k as int));
            assert(pre.last() == symbols@[k as int]@);
        }
        k = k + 1;
    }
    proof {
        assert(views(symbols@).subrange(0, n as int) =~= views(symbols@));
        // symbol_order is the unique sorted listing
        let s = choose|s: Seq<Seq<char>>| is_sorted_set(s, all_symbols(*input));
        assert(is_sorted_set(views(symbols@), all_symbols(*input)));
        lemma_sorted_set_unique(views(symbols@), s, all_symbols(*input));
    }
    result
}


// ── laws ─────────────────────────────────────────────────────────────────────

/// The signed quantity an intent moves the position by.
pub open spec fn signed_move(i: IntentView) -> int {
    match i.side {
        Side::Buy => i.qty,
        Side::Sell => -i.qty,
    }
}

/// The position after applying the first `k` intents to `start`.
pub open spec fn position_after(start: int, s: Seq<IntentView>, k: int) -> int
    decreases k,
{
    if k <= 0 {
        start
    } else {
        position_after(start, s, k - 1) + signed_move(s[k - 1])
    }
}

/// The client's current net position in `sym`.
pub open spec fn current_of(input: ReconcileInput, sym: Seq<char>) -> int {
    net_of(find_pos(input.client@, sym))
}

/// Applying a symbol's intents moves the client's position exactly to its target: the
/// engine trades only the delta toward the target, never more.
pub proof fn law_symbol_reaches_target(input: ReconcileInput, sym: Seq<char>)
    requires
        input_wf(input),
        symbol_target(input, sym) is Some,
    ensures
        position_after(
            current_of(input, sym),
            symbol_intents(input, sym),
            symbol_intents(input, sym).len() as int,
        ) == symbol_target(input, sym)->0,
{
    let s = symbol_intents(input, sym);
    let c = current_of(input, sym);
    assert(position_after(c, s, 0) == c);
    if s.len() >= 1 {
        assert(position_after(c, s, 1) == c + signed_move(s[0]));
    }
    if s.len() == 2 {
        assert(position_after(c, s, 2) == position_after(c, s, 1) + signed_move(s[1]));
    }
}

/// Every intent carries a strictly positive quantity.
pub proof fn law_intent_qty_positive(input: ReconcileInput, sym: Seq<char>)
    requires
        input_wf(input),
    ensures
        forall|k: int|
            0 <= k < symbol_intents(input, sym).len() ==> #[trigger] symbol_intents(
                input,
                sym,
            )[k].qty > 0,
{
}

/// When the master is flat in a symbol (and targets are sized live), the client only
/// trades toward flat: at most one intent, on the closing side, ending exactly at zero —
/// a close can never turn into a short.
pub proof fn law_master_flat_trades_to_flat(input: ReconcileInput, sym: Seq<char>)
    requires
        input_wf(input),
        input.targets is None,
        balances_known(input.sizing),
        net_of(find_pos(input.master@, sym)) == 0,
    ensures
        symbol_target(input, sym) == Some(0int),
        symbol_intents(input, sym).len() <= 1,
        forall|k: int|
            0 <= k < symbol_intents(input, sym).len() ==> (#[trigger] symbol_intents(
                input,
                sym,
            )[k]).side == side_closing(current_of(input, sym)),
        position_after(
            current_of(input, sym),
            symbol_intents(input, sym),
            symbol_intents(input, sym).len() as int,
        ) == 0,
{
    let p = input.sizing;
    assert(crate::sizing::abs(0int * p.client_balance * p.multiplier) == 0);
    assert(crate::sizing::scaled_target(0int, p) == 0) by {
        assert(0int * p.client_balance * p.multiplier == 0);
        assert(crate::sizing::round_half_away(0, p.master_balance * crate::model::PRICE_SCALE)
            == 0) by (nonlinear_arith)
            requires
                p.master_balance > 0,
        ;
    }
    law_symbol_reaches_target(input, sym);
}

/// In long-only mode no intent ever takes the client's position below where it started
/// or below zero, whichever is lower: a short is never opened.
pub proof fn law_long_only_never_opens_short(input: ReconcileInput, sym: Seq<char>)
    requires
        input_wf(input),
        input.long_only,
    ensures
        forall|k: int|
            0 <= k <= symbol_intents(input, sym).len() ==> #[trigger] position_after(
                current_of(input, sym),
                symbol_intents(input, sym),
                k,
            ) >= (if current_of(input, sym) < 0 {
                current_of(input, sym)
            } else {
                0
            }),
{
    let s = symbol_intents(input, sym);
    let c = current_of(input, sym);
    assert forall|k: int| 0 <= k <= s.len() implies #[trigger] position_after(c, s, k) >= (if c
        < 0 {
        c
    } else {
        0
    }) by {
        assert(position_after(c, s, 0) == c);
        if s.len() >= 1 {
            assert(position_after(c, s, 1) == c + signed_move(s[0]));
        }
        if s.len() == 2 {
            assert(position_after(c, s, 2) == position_after(c, s, 1) + signed_move(s[1]));
        }
    }
}

/// With zero-cross splitting on, no single intent moves the position from one side of
/// zero to the other: a flip is always a flatten leg followed by an open leg.
pub proof fn law_no_intent_crosses_zero(input: ReconcileInput, sym: Seq<char>)
    requires
        input_wf(input),
        input.split_zero_cross,
    ensures
        forall|k: int|
            0 <= k < symbol_intents(input, sym).len() ==> !crosses_zero(
                #[trigger] position_after(current_of(input, sym), symbol_intents(input, sym), k),
                position_after(current_of(input, sym), symbol_intents(input, sym), k + 1),
            ),
{
    let s = symbol_intents(input, sym);
    let c = current_of(input, sym);
    assert forall|k: int| 0 <= k < s.len() implies !crosses_zero(
        #[trigger] position_after(c, s, k),
        position_after(c, s, k + 1),
    ) by {
        assert(position_after(c, s, 0) == c);
        assert(position_after(c, s, 1) == c + signed_move(s[0]));
        if s.len() == 2 {
            assert(position_after(c, s, 2) == position_after(c, s, 1) + signed_move(s[1]));
        }
    }
}

/// A direction flip with splitting on is exactly two legs: a market flatten to zero, then
/// an open of the full new-direction target.
pub proof fn law_flip_is_flatten_then_open(input: ReconcileInput, sym: Seq<char>)
    requires
        input_wf(input),
        input.split_zero_cross,
        symbol_target(input, sym) matches Some(t) && crosses_zero(current_of(input, sym), t),
    ensures
        symbol_intents(input, sym).len() == 2,
        symbol_intents(input, sym)[0].reason == IntentReason::FlattenLeg,
        symbol_intents(input, sym)[0].kind == OrderKind::Market,
        symbol_intents(input, sym)[1].reason == IntentReason::OpenLeg,
        position_after(current_of(input, sym), symbol_intents(input, sym), 1) == 0,
{
    let s = symbol_intents(input, sym);
    let c = current_of(input, sym);
    assert(position_after(c, s, 1) == position_after(c, s, 0) + signed_move(s[0]));
}

/// Reductions, closes and flatten legs always go out as market orders, so an exit is
/// never left resting.
pub proof fn law_exits_use_market_orders(input: ReconcileInput, sym: Seq<char>)
    requires
        input_wf(input),
    ensures
        forall|k: int|
            0 <= k < symbol_intents(input, sym).len() && (#[trigger] symbol_intents(
                input,
                sym,
            )[k].reason == IntentReason::ReduceToTarget || symbol_intents(input, sym)[k].reason
                == IntentReason::CloseOrphan || symbol_intents(input, sym)[k].reason
                == IntentReason::FlattenLeg) ==> symbol_intents(input, sym)[k].kind
                == OrderKind::Market,
{
}

/// A book that already matches its targets produces no intents: reconciliation is
/// idempotent.
pub proof fn law_matched_book_is_quiet(input: ReconcileInput)
    requires
        input_wf(input),
        forall|sym: Seq<char>|
            #[trigger] symbol_target(input, sym) matches Some(t) ==> t == current_of(
                input,
                sym,
            ),
    ensures
        plan(input).len() == 0,
{
    lemma_quiet_prefix(input, symbol_order(input));
}

proof fn lemma_quiet_prefix(input: ReconcileInput, syms: Seq<Seq<char>>)
    requires
        forall|sym: Seq<char>|
            #[trigger] symbol_target(input, sym) matches Some(t) ==> t == current_of(
                input,
                sym,
            ),
    ensures
        plan_for(input, syms).len() == 0,
    decreases syms.len(),
{
    if syms.len() > 0 {
        lemma_quiet_prefix(input, syms.drop_last());
        let sym = syms.last();
        assert(symbol_target(input, sym) matches Some(t) ==> t == current_of(input, sym));
    }
}

// ── the whole pass ───────────────────────────────────────────────────────────

/// The intents of `p` for `sym`, in order.
pub open spec fn intents_for(p: Seq<IntentView>, sym: Seq<char>) -> Seq<IntentView>
    decreases p.len(),
{
    if p.len() == 0 {
        Seq::empty()
    } else {
        intents_for(p.drop_last(), sym) + (if p.last().symbol == sym {
            seq![p.last()]
        } else {
            Seq::empty()
        })
    }
}

/// An exit intent (reduce, close, or flatten leg).
pub open spec fn is_exit(i: IntentView) -> bool {
    i.reason == IntentReason::ReduceToTarget || i.reason == IntentReason::CloseOrphan || i.reason
        == IntentReason::FlattenLeg
}

/// What holds of a whole pass `p` over the sorted symbols `syms`, where `f` gives each
/// symbol's own plan: each symbol's intents, picked out of the pass, are exactly its plan
/// (none for a symbol not walked); the intents come in symbol order; every open leg
/// directly follows the flatten leg of its symbol; every quantity is positive; and every
/// exit is a market order.
pub open spec fn pass_shape(p: Seq<IntentView>, syms: Seq<Seq<char>>, f: spec_fn(Seq<char>) -> Seq<IntentView>) -> bool {
    &&& pass_picks(p, syms, f)
    &&& pass_in_order(p)
    &&& pass_legs_paired(p)
    &&& pass_items_ok(p, syms)
}

/// Each symbol's intents, picked out of `p`, are exactly its plan (none for a symbol not
/// walked).
pub open spec fn pass_picks(p: Seq<IntentView>, syms: Seq<Seq<char>>, f: spec_fn(Seq<char>) -> Seq<IntentView>) -> bool {
    forall|s: Seq<char>|
        #[trigger] intents_for(p, s) == (if syms.contains(s) {
            f(s)
        } else {
            Seq::empty()
        })
}

/// The intents come in symbol order.
pub open spec fn pass_in_order(p: Seq<IntentView>) -> bool {
    forall|i: int, j: int|
        0 <= i < j < p.len() ==> !seq_lt(#[trigger] p[j].symbol, #[trigger] p[i].symbol)
}

/// Every open leg directly follows the flatten leg of its symbol.
pub open spec fn pass_legs_paired(p: Seq<IntentView>) -> bool {
    forall|k: int|
        0 <= k < p.len() && (#[trigger] p[k]).reason == IntentReason::OpenLeg ==> k > 0 && p[k
            - 1].reason == IntentReason::FlattenLeg && p[k - 1].symbol == p[k].symbol
}

/// Every quantity is positive, every exit is a market order, and every symbol is walked.
pub open spec fn pass_items_ok(p: Seq<IntentView>, syms: Seq<Seq<char>>) -> bool {
    &&& forall|k: int| 0 <= k < p.len() ==> (#[trigger] p[k]).qty > 0
    &&& forall|k: int| 0 <= k < p.len() && is_exit(#[trigger] p[k]) ==> p[k].kind == OrderKind::Market
    &&& forall|k: int| 0 <= k < p.len() ==> syms.contains(#[trigger] p[k].symbol)
}

/// [`pass_shape`] with each symbol's plan as the engine makes it.
pub open spec fn pass_ok(input: ReconcileInput, p: Seq<IntentView>, syms: Seq<Seq<char>>) -> bool {
    pass_shape(p, syms, |s: Seq<char>| symbol_intents(input, s))
}

/// The shape of one symbol's plan.
pub open spec fn plan_shape(q: Seq<IntentView>, sym: Seq<char>) -> bool {
    &&& q.len() <= 2
    &&& forall|k: int| 0 <= k < q.len() ==> (#[trigger] q[k]).symbol == sym
    &&& q.len() == 2 ==> q[0].reason == IntentReason::FlattenLeg && q[1].reason == IntentReason::OpenLeg
    &&& q.len() == 1 ==> q[0].reason != IntentReason::OpenLeg
    &&& forall|k: int| 0 <= k < q.len() ==> (#[trigger] q[k]).qty > 0
    &&& forall|k: int| 0 <= k < q.len() && is_exit(#[trigger] q[k]) ==> q[k].kind == OrderKind::Market
    &&& intents_for(q, sym) == q
    &&& forall|o: Seq<char>| o != sym ==> #[trigger] intents_for(q, o) == Seq::<IntentView>::empty()
}

proof fn lemma_intents_for_add(a: Seq<IntentView>, b: Seq<IntentView>, sym: Seq<char>)
    ensures
        intents_for(a + b, sym) == intents_for(a, sym) + intents_for(b, sym),
    decreases b.len(),
{
    if b.len() == 0 {
        assert(a + b =~= a);
        assert(intents_for(a, sym) + intents_for(b, sym) =~= intents_for(a, sym));
    } else {
        assert((a + b).drop_last() =~= a + b.drop_last());
        assert((a + b).last() == b.last());
        lemma_intents_for_add(a, b.drop_last(), sym);
        assert(intents_for(a + b, sym) =~= intents_for(a, sym) + intents_for(b, sym));
    }
}

proof fn lemma_intents_for_small(q: Seq<IntentView>, sym: Seq<char>, o: Seq<char>)
    requires
        q.len() <= 2,
        forall|k: int| 0 <= k < q.len() ==> (#[trigger] q[k]).symbol == sym,
    ensures
        intents_for(q, sym) == q,
        o != sym ==> intents_for(q, o) == Seq::<IntentView>::empty(),
{
    reveal_with_fuel(intents_for, 3);
    if q.len() == 2 {
        assert(q.drop_last().drop_last() =~= Seq::<IntentView>::empty());
        assert(q.drop_last() =~= seq![q[0]]);
        assert(intents_for(q, sym) =~= q);
        if o != sym {
            assert(intents_for(q, o) =~= Seq::<IntentView>::empty());
        }
    } else if q.len() == 1 {
        assert(q.drop_last() =~= Seq::<IntentView>::empty());
        assert(intents_for(q, sym) =~= q);
        if o != sym {
            assert(intents_for(q, o) =~= Seq::<IntentView>::empty());
        }
    } else {
        assert(q =~= Seq::<IntentView>::empty());
    }
}

/// A symbol's own plan has the shape of [`plan_shape`].
proof fn lemma_symbol_plan_shape(input: ReconcileInput, sym: Seq<char>)
    requires
        input_wf(input),
    ensures
        plan_shape(symbol_intents(input, sym), sym),
{
    let q = symbol_intents(input, sym);
    law_intent_qty_positive(input, sym);
    law_exits_use_market_orders(input, sym);
    assert(q.len() <= 2);
    assert forall|k: int| 0 <= k < q.len() implies (#[trigger] q[k]).symbol == sym by {}
    assert forall|o: Seq<char>| o != sym implies #[trigger] intents_for(q, o) == Seq::<IntentView>::empty() by {
        lemma_intents_for_small(q, sym, o);
    }
    lemma_intents_for_small(q, sym, sym);
}

/// Membership in `pre` extended by `last`.
proof fn lemma_push_contains(pre: Seq<Seq<char>>, last: Seq<char>)
    requires
        strictly_sorted(pre.push(last)),
    ensures
        forall|s: Seq<char>| pre.contains(s) ==> seq_lt(s, last),
        !pre.contains(last),
        forall|s: Seq<char>| #[trigger] pre.push(last).contains(s) <==> (pre.contains(s) || s == last),
{
    let syms = pre.push(last);
    let n = pre.len() as int;
    assert forall|s: Seq<char>| pre.contains(s) implies seq_lt(s, last) by {
        let idx = choose|idx: int| 0 <= idx < pre.len() && pre[idx] == s;
        assert(syms[idx] == s && syms[n] == last);
    }
    if pre.contains(last) {
        crate::text::lemma_seq_lt_irreflexive(last);
    }
    assert forall|s: Seq<char>| #[trigger] syms.contains(s) <==> (pre.contains(s) || s == last) by {
        if syms.contains(s) {
            let idx = choose|idx: int| 0 <= idx < syms.len() && syms[idx] == s;
            if idx < n {
                assert(pre[idx] == s);
            }
        }
        if pre.contains(s) {
            let idx = choose|idx: int| 0 <= idx < pre.len() && pre[idx] == s;
            assert(syms[idx] == s);
        }
        if s == last {
            assert(syms[n] == s);
        }
    }
}

#[verifier::rlimit(60)]
proof fn lemma_step_intents(
    a: Seq<IntentView>,
    q: Seq<IntentView>,
    pre: Seq<Seq<char>>,
    last: Seq<char>,
    f: spec_fn(Seq<char>) -> Seq<IntentView>,
)
    requires
        pass_shape(a, pre, f),
        strictly_sorted(pre.push(last)),
        q == f(last),
        plan_shape(q, last),
    ensures
        pass_picks(a + q, pre.push(last), f),
{
    lemma_push_contains(pre, last);
    assert forall|s: Seq<char>| #[trigger] intents_for(a + q, s) == (if pre.push(last).contains(s) {
        f(s)
    } else {
        Seq::empty()
    }) by {
        lemma_intents_for_add(a, q, s);
        assert(intents_for(a, s) == (if pre.contains(s) {
            f(s)
        } else {
            Seq::empty()
        }));
        if s == last {
            assert(intents_for(a + q, s) =~= q);
        } else {
            assert(intents_for(q, s) == Seq::<IntentView>::empty());
            assert(intents_for(a + q, s) =~= intents_for(a, s));
        }
    }
}

#[verifier::rlimit(60)]
proof fn lemma_step_order(
    a: Seq<IntentView>,
    q: Seq<IntentView>,
    pre: Seq<Seq<char>>,
    last: Seq<char>,
    f: spec_fn(Seq<char>) -> Seq<IntentView>,
)
    requires
        pass_shape(a, pre, f),
        strictly_sorted(pre.push(last)),
        plan_shape(q, last),
    ensures
        pass_in_order(a + q),
        pass_legs_paired(a + q),
{
    lemma_push_contains(pre, last);
    let p = a + q;
    assert forall|i: int, j: int| 0 <= i < j < p.len() implies !seq_lt(#[trigger] p[j].symbol, #[trigger] p[i].symbol) by {
        if j < a.len() {
            assert(p[i] == a[i] && p[j] == a[j]);
        } else if i < a.len() {
            assert(p[i] == a[i] && p[j] == q[j - a.len()]);
            assert(pre.contains(a[i].symbol));
            crate::text::lemma_seq_lt_asymmetric(a[i].symbol, last);
        } else {
            assert(p[i] == q[i - a.len()] && p[j] == q[j - a.len()]);
            crate::text::lemma_seq_lt_irreflexive(last);
        }
    }
    assert forall|k: int| 0 <= k < p.len() && (#[trigger] p[k]).reason == IntentReason::OpenLeg implies k > 0 && p[k
        - 1].reason == IntentReason::FlattenLeg && p[k - 1].symbol == p[k].symbol by {
        if k < a.len() {
            assert(p[k] == a[k] && p[k - 1] == a[k - 1]);
        } else {
            assert(p[k] == q[k - a.len()]);
            if k - a.len() == 1 {
                assert(p[k - 1] == q[0]);
            }
        }
    }
}

#[verifier::rlimit(60)]
proof fn lemma_step_items(
    a: Seq<IntentView>,
    q: Seq<IntentView>,
    pre: Seq<Seq<char>>,
    last: Seq<char>,
    f: spec_fn(Seq<char>) -> Seq<IntentView>,
)
    requires
        pass_shape(a, pre, f),
        strictly_sorted(pre.push(last)),
        plan_shape(q, last),
    ensures
        pass_items_ok(a + q, pre.push(last)),
{
    lemma_push_contains(pre, last);
    let p = a + q;
    assert forall|k: int| 0 <= k < p.len() implies (#[trigger] p[k]).qty > 0 by {
        if k < a.len() {
            assert(p[k] == a[k]);
        } else {
            assert(p[k] == q[k - a.len()]);
        }
    }
    assert forall|k: int| 0 <= k < p.len() && is_exit(#[trigger] p[k]) implies p[k].kind == OrderKind::Market by {
        if k < a.len() {
            assert(p[k] == a[k]);
        } else {
            assert(p[k] == q[k - a.len()]);
        }
    }
    assert forall|k: int| 0 <= k < p.len() implies pre.push(last).contains(#[trigger] p[k].symbol) by {
        if k < a.len() {
            assert(p[k] == a[k]);
            assert(pre.contains(a[k].symbol));
        } else {
            assert(p[k] == q[k - a.len()]);
        }
    }
}

#[verifier::rlimit(100)]
#[verifier::spinoff_prover]
proof fn lemma_step(
    a: Seq<IntentView>,
    q: Seq<IntentView>,
    pre: Seq<Seq<char>>,
    last: Seq<char>,
    f: spec_fn(Seq<char>) -> Seq<IntentView>,
)
    requires
        pass_shape(a, pre, f),
        strictly_sorted(pre.push(last)),
        q == f(last),
        plan_shape(q, last),
    ensures
        pass_shape(a + q, pre.push(last), f),
{
    lemma_step_intents(a, q, pre, last, f);
    lemma_step_order(a, q, pre, last, f);
    lemma_step_items(a, q, pre, last, f);
}

/// The plans of `syms`, one after another.
pub open spec fn fold_plan(syms: Seq<Seq<char>>, f: spec_fn(Seq<char>) -> Seq<IntentView>) -> Seq<IntentView>
    decreases syms.len(),
{
    if syms.len() == 0 {
        Seq::empty()
    } else {
        fold_plan(syms.drop_last(), f) + f(syms.last())
    }
}

#[verifier::rlimit(60)]
proof fn lemma_fold_pass(syms: Seq<Seq<char>>, f: spec_fn(Seq<char>) -> Seq<IntentView>)
    requires
        strictly_sorted(syms),
        forall|s: Seq<char>| plan_shape(#[trigger] f(s), s),
    ensures
        pass_shape(fold_plan(syms, f), syms, f),
    decreases syms.len(),
{
    let p = fold_plan(syms, f);
    if syms.len() == 0 {
        assert forall|s: Seq<char>| #[trigger] intents_for(p, s) == (if syms.contains(s) {
            f(s)
        } else {
            Seq::empty()
        }) by {
            assert(!syms.contains(s));
        }
    } else {
        let pre = syms.drop_last();
        let last = syms.last();
        assert(pre.push(last) =~= syms);
        assert(strictly_sorted(pre)) by {
            assert forall|i: int, j: int| 0 <= i < j < pre.len() implies seq_lt(#[trigger] pre[i], #[trigger] pre[j]) by {
                assert(pre[i] == syms[i] && pre[j] == syms[j]);
            }
        }
        lemma_fold_pass(pre, f);
        let a = fold_plan(pre, f);
        let q = f(last);
        assert(plan_shape(q, last));
        lemma_step(a, q, pre, last, f);
        assert(p == a + q);
    }
}

proof fn lemma_plan_is_fold(input: ReconcileInput, syms: Seq<Seq<char>>)
    ensures
        plan_for(input, syms) == fold_plan(syms, |s: Seq<char>| symbol_intents(input, s)),
    decreases syms.len(),
{
    if syms.len() > 0 {
        lemma_plan_is_fold(input, syms.drop_last());
    }
}

proof fn lemma_plan_for_pass(input: ReconcileInput, syms: Seq<Seq<char>>)
    requires
        input_wf(input),
        strictly_sorted(syms),
    ensures
        pass_ok(input, plan_for(input, syms), syms),
{
    let f = |s: Seq<char>| symbol_intents(input, s);
    assert forall|s: Seq<char>| plan_shape(#[trigger] f(s), s) by {
        lemma_symbol_plan_shape(input, s);
    }
    lemma_fold_pass(syms, f);
    lemma_plan_is_fold(input, syms);
}

/// What a whole reconciliation pass promises, over the sorted listing of the symbols:
/// picked out by symbol, the pass is each symbol's own plan — so each symbol ends exactly
/// at its target, no intent crosses zero when splitting is on, and a symbol of neither
/// book gets nothing; the intents come in symbol order; every open leg directly follows
/// the flatten leg of its symbol; every quantity is positive; and every exit is a market
/// order.
#[verifier::rlimit(100)]
#[verifier::spinoff_prover]
pub proof fn law_whole_pass(input: ReconcileInput, syms: Seq<Seq<char>>)
    requires
        input_wf(input),
        is_sorted_set(syms, all_symbols(input)),
    ensures
        plan(input) == plan_for(input, syms),
        pass_ok(input, plan(input), syms),
        forall|s: Seq<char>|
            syms.contains(s) && #[trigger] symbol_target(input, s) is Some ==> position_after(
                current_of(input, s),
                intents_for(plan(input), s),
                intents_for(plan(input), s).len() as int,
            ) == symbol_target(input, s)->0,
        input.split_zero_cross ==> forall|s: Seq<char>, k: int|
            0 <= k < intents_for(plan(input), s).len() ==> !crosses_zero(
                #[trigger] position_after(current_of(input, s), intents_for(plan(input), s), k),
                position_after(current_of(input, s), intents_for(plan(input), s), k + 1),
            ),
{
    let o = choose|s: Seq<Seq<char>>| is_sorted_set(s, all_symbols(input));
    lemma_sorted_set_unique(syms, o, all_symbols(input));
    lemma_plan_for_pass(input, syms);
    assert forall|s: Seq<char>| syms.contains(s) && #[trigger] symbol_target(input, s) is Some implies position_after(
        current_of(input, s),
        intents_for(plan(input), s),
        intents_for(plan(input), s).len() as int,
    ) == symbol_target(input, s)->0 by {
        law_symbol_reaches_target(input, s);
    }
    if input.split_zero_cross {
        assert forall|s: Seq<char>, k: int| 0 <= k < intents_for(plan(input), s).len() implies !crosses_zero(
            #[trigger] position_after(current_of(input, s), intents_for(plan(input), s), k),
            position_after(current_of(input, s), intents_for(plan(input), s), k + 1),
        ) by {
            law_no_intent_crosses_zero(input, s);
            if !syms.contains(s) {
                assert(intents_for(plan(input), s).len() == 0);
            }
        }
    }
}

/// Reconciliation is idempotent: run again on the book that applying a pass produces —
/// same master, targets and settings, each symbol of the pass now at its target — the
/// next pass is not blocked (when the first was not, and the empty-master guard still
/// allows the book) and has nothing to do.
pub proof fn law_reconcile_idempotent(input: ReconcileInput, next: ReconcileInput)
    requires
        input_wf(input),
        input_wf(next),
        next.master@ == input.master@,
        next.targets == input.targets,
        next.sizing == input.sizing,
        next.long_only == input.long_only,
        next.master_connected == input.master_connected,
        next.empty_master_guard == input.empty_master_guard,
        forall|s: Seq<char>|
            #[trigger] symbol_target(input, s) is Some ==> current_of(next, s) == position_after(
                current_of(input, s),
                symbol_intents(input, s),
                symbol_intents(input, s).len() as int,
            ),
        block_reason(input) is None,
        input.master@.len() > 0 || next.client@.len() <= input.empty_master_guard,
    ensures
        block_reason(next) is None,
        plan(next).len() == 0,
{
    assert forall|s: Seq<char>| #[trigger] symbol_target(next, s) is Some implies symbol_target(next, s)->0 == current_of(next, s) by {
        assert(symbol_target(next, s) == symbol_target(input, s));
        law_symbol_reaches_target(input, s);
    }
    law_matched_book_is_quiet(next);
}

/// With targets locked, a symbol missing from the locked map targets flat: the client
/// closes whatever it holds in it (a long-only clamp leaves 0 as it is), and its intents
/// end exactly at zero — more than nothing whenever the client holds it.
pub proof fn law_unlocked_symbol_closes(input: ReconcileInput, sym: Seq<char>)
    requires
        input_wf(input),
        input.targets matches Some(ts) && find_target(ts@, sym) is None,
    ensures
        symbol_target(input, sym) == Some(0int),
        position_after(
            current_of(input, sym),
            symbol_intents(input, sym),
            symbol_intents(input, sym).len() as int,
        ) == 0,
        current_of(input, sym) != 0 ==> symbol_intents(input, sym).len() > 0,
{
    law_symbol_reaches_target(input, sym);
    if current_of(input, sym) != 0 && symbol_intents(input, sym).len() == 0 {
        assert(position_after(current_of(input, sym), symbol_intents(input, sym), 0) == current_of(input, sym));
    }
}

/// With targets locked, a symbol in the locked map trades to its locked target (to 0
/// instead of a short in long-only mode), whatever the master now holds.
pub proof fn law_locked_symbol_reaches_lock(input: ReconcileInput, sym: Seq<char>)
    requires
        input_wf(input),
        input.targets matches Some(ts) && find_target(ts@, sym) is Some,
    ensures
        ({
            let t = find_target(input.targets->0@, sym)->0 as int;
            let want = if input.long_only && t < 0 {
                0
            } else {
                t
            };
            position_after(
                current_of(input, sym),
                symbol_intents(input, sym),
                symbol_intents(input, sym).len() as int,
            ) == want
        }),
{
    law_symbol_reaches_target(input, sym);
}
} // verus!
