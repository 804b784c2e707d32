//! Wire protocol between master and client.
//!
//! The master serves a single authoritative [`MasterSnapshot`] document. The client
//! reconciles against this snapshot rather than against a stream of order events, which
//! is what makes orphan-close and missed-open detection robust and idempotent.

use vstd::prelude::*;

use crate::model::{Position, WorkingOrder};

verus! {

/// Bump when the snapshot shape changes incompatibly.
pub const PROTOCOL_SCHEMA: u32 = 2;

/// Full, self-contained view of the master account at a point in time.
#[derive(Debug, Clone)]
pub struct MasterSnapshot {
    /// Protocol schema version — the client refuses mismatched majors.
    pub schema: u32,
    /// Whether the master is currently connected to its IB Gateway/TWS.
    pub connected: bool,
    /// Master account id (informational).
    pub account: String,
    /// Master NetLiquidation (fixed-point). Drives proportional sizing.
    pub balance: i64,
    /// Net positions per symbol (signed quantities).
    pub positions: Vec<Position>,
    /// Resting limit/stop/stop-limit orders the client should mirror.
    pub working_orders: Vec<WorkingOrder>,
    /// Unix epoch millis when this snapshot was generated.
    pub generated_at_ms: u64,
}

impl Default for MasterSnapshot {
    fn default() -> (r: MasterSnapshot)
        ensures
            r.schema == PROTOCOL_SCHEMA,
            !r.connected,
            r.account@ == Seq::<char>::empty(),
            r.balance == 0,
            r.positions@ == Seq::<Position>::empty(),
            r.working_orders@ == Seq::<WorkingOrder>::empty(),
            r.generated_at_ms == 0,
    {
        MasterSnapshot {
            schema: PROTOCOL_SCHEMA,
            connected: false,
            account: String::new(),
            balance: 0,
            positions: Vec::new(),
            working_orders: Vec::new(),
            generated_at_ms: 0,
        }
    }
}

/// Lightweight status document served at `/status`.
#[derive(Debug, Clone)]
pub struct StatusDoc {
    pub status: String,
    pub connected: bool,
    /// Master NetLiquidation (fixed-point).
    pub balance: i64,
    pub total_positions: usize,
    pub schema: u32,
}

} // verus!
