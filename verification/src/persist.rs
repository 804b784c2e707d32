//! What the client keeps across restarts: the operator's settings, and the ledger of the
//! master-change lock (which belongs to one IBKR account only).

use vstd::prelude::*;

use crate::client_state::{AccountMode, Controls, ExecutionMode, TradeMode};
use crate::model::WorkingOrder;
use crate::text::str_eq;

verus! {

/// The settings saved between runs (money and ratios fixed-point as in [`Controls`]).
#[derive(Debug)]
pub struct SavedSettings {
    pub account_mode: AccountMode,
    pub trade_mode: TradeMode,
    pub execution_mode: ExecutionMode,
    pub multiplier: i64,
    pub max_drawdown_pct: i64,
    pub ib_host: String,
    pub ib_port_live: u16,
    pub ib_port_paper: u16,
    pub ib_account: String,
    /// Absent in older files, which then read as `false` (trading around the clock).
    pub rth_only: bool,
}

/// `s` holds exactly the saved part of the controls `c`.
pub open spec fn saves(s: SavedSettings, c: Controls) -> bool {
    &&& s.account_mode == c.account_mode
    &&& s.trade_mode == c.trade_mode
    &&& s.execution_mode == c.execution_mode
    &&& s.multiplier == c.multiplier
    &&& s.max_drawdown_pct == c.max_drawdown_pct
    &&& s.ib_host@ == c.ib_host@
    &&& s.ib_port_live == c.ib_port_live
    &&& s.ib_port_paper == c.ib_port_paper
    &&& s.ib_account@ == c.ib_account@
    &&& s.rth_only == c.rth_only
}

/// The controls `before` with the saved settings `s` laid over them: the saved fields
/// replaced, the position caps and the master URL kept.
pub open spec fn overlaid(after: Controls, before: Controls, s: SavedSettings) -> bool {
    &&& saves(s, after)
    &&& after.max_position_notional == before.max_position_notional
    &&& after.max_position_qty == before.max_position_qty
    &&& after.master_url@ == before.master_url@
}

/// The saved part of the controls.
pub fn saved_settings(c: &Controls) -> (r: SavedSettings)
    ensures
        saves(r, *c),
{
    SavedSettings {
        account_mode: c.account_mode,
        trade_mode: c.trade_mode,
        execution_mode: c.execution_mode,
        multiplier: c.multiplier,
        max_drawdown_pct: c.max_drawdown_pct,
        ib_host: c.ib_host.clone(),
        ib_port_live: c.ib_port_live,
        ib_port_paper: c.ib_port_paper,
        ib_account: c.ib_account.clone(),
        rth_only: c.rth_only,
    }
}

/// Lay saved settings over the controls (at startup, after the configured defaults).
pub fn apply_saved(c: &mut Controls, s: SavedSettings)
    ensures
        overlaid(*final(c), *old(c), s),
{
    c.account_mode = s.account_mode;
    c.trade_mode = s.trade_mode;
    c.execution_mode = s.execution_mode;
    c.multiplier = s.multiplier;
    c.max_drawdown_pct = s.max_drawdown_pct;
    c.ib_host = s.ib_host;
    c.ib_port_live = s.ib_port_live;
    c.ib_port_paper = s.ib_port_paper;
    c.ib_account = s.ib_account;
    c.rth_only = s.rth_only;
}

/// Saving the settings and laying them over any controls restores every saved setting;
/// nothing else of those controls changes.
pub proof fn law_saved_settings_restore(c: Controls, other: Controls, s: SavedSettings, restored: Controls)
    requires
        saves(s, c),
        overlaid(restored, other, s),
    ensures
        restored.account_mode == c.account_mode,
        restored.trade_mode == c.trade_mode,
        restored.execution_mode == c.execution_mode,
        restored.multiplier == c.multiplier,
        restored.max_drawdown_pct == c.max_drawdown_pct,
        restored.ib_host@ == c.ib_host@,
        restored.ib_port_live == c.ib_port_live,
        restored.ib_port_paper == c.ib_port_paper,
        restored.ib_account@ == c.ib_account@,
        restored.rth_only == c.rth_only,
        restored.max_position_notional == other.max_position_notional,
        restored.max_position_qty == other.max_position_qty,
        restored.master_url@ == other.master_url@,
{
}

// ── the ledger ───────────────────────────────────────────────────────────────

/// The master-change lock's state as it is saved: whose account it is, the master net
/// last seen and the target locked per symbol (sorted tables, as the target lock keeps them),
/// two fields kept only so older files round-trip, and the drawdown high-water mark
/// (0 when unknown).
#[derive(Debug)]
pub struct Ledger {
    pub account: String,
    pub seen_master_net: Vec<(String, i64)>,
    pub targets: Vec<(String, i64)>,
    pub wo_fingerprint: Option<String>,
    pub desired: Vec<WorkingOrder>,
    pub peak_balance: i64,
}

/// The ledger to resume with: the saved one when it belongs to `account`, else none (a
/// fresh start, so one account never inherits another's targets).
pub fn resume_ledger(account: &str, saved: Option<Ledger>) -> (r: Option<Ledger>)
    ensures
        match saved {
            Some(l) => if l.account@ == account@ {
                r == Some(l)
            } else {
                r is None
            },
            None => r is None,
        },
{
    match saved {
        Some(l) => if str_eq(l.account.as_str(), account) {
            Some(l)
        } else {
            None
        },
        None => None,
    }
}

} // verus!
