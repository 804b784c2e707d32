//! Disconnect email alerts: when to email, and whether the mailbox is configured.
//!
//! While the engine is running, a client that stays disconnected through the configured
//! number of *weekday* hours (weekends excluded — markets are closed) is emailed to
//! reconnect its IB Gateway, and re-emailed hourly while the disconnection persists.

use vstd::prelude::*;

use crate::text::{decimal, digit_char, digit_str, push_decimal, trim, trim_str};

verus! {

/// Interval between reminders once the threshold is crossed: one hour, in ms.
pub const RESEND_MS: u64 = 3_600_000;

/// What the monitor remembers between ticks.
#[derive(Debug, Clone, Copy)]
pub struct AlertState {
    /// Disconnected weekday time accrued since the last time the client was connected.
    pub down_weekday_ms: u64,
    /// When the last reminder went out.
    pub last_email_ms: Option<u64>,
}

/// One tick of the monitor: `elapsed_ms` since the previous tick, at `now_ms`.
pub open spec fn tick_spec(
    st: AlertState,
    enabled: bool,
    disconnected: bool,
    weekend: bool,
    elapsed_ms: u64,
    now_ms: u64,
    threshold_ms: u64,
) -> (AlertState, bool) {
    if !enabled || !disconnected {
        (AlertState { down_weekday_ms: 0, last_email_ms: None }, false)
    } else if weekend {
        (st, false)
    } else {
        let down = if st.down_weekday_ms + elapsed_ms > u64::MAX {
            u64::MAX
        } else {
            (st.down_weekday_ms + elapsed_ms) as u64
        };
        let due = match st.last_email_ms {
            None => true,
            Some(t) => now_ms >= t && now_ms - t >= RESEND_MS,
        };
        if down < threshold_ms || !due {
            (AlertState { down_weekday_ms: down, ..st }, false)
        } else {
            (AlertState { down_weekday_ms: down, last_email_ms: Some(now_ms) }, true)
        }
    }
}

impl AlertState {
    pub fn new() -> (r: AlertState)
        ensures
            r.down_weekday_ms == 0,
            r.last_email_ms is None,
    {
        AlertState { down_weekday_ms: 0, last_email_ms: None }
    }

    /// Advance the monitor by one tick; returns whether a reminder is to be sent now
    /// (its time is then recorded, whether or not sending succeeds, so a failing mailbox
    /// is not hammered). Being connected, stopped, or having alerts disabled clears the
    /// accrual; weekend time does not count.
    pub fn tick(
        &mut self,
        enabled: bool,
        disconnected: bool,
        weekend: bool,
        elapsed_ms: u64,
        now_ms: u64,
        threshold_ms: u64,
    ) -> (send: bool)
        ensures
            (*final(self), send) == tick_spec(*old(self), enabled, disconnected, weekend, elapsed_ms, now_ms, threshold_ms),
    {
        if !enabled || !disconnected {
            self.down_weekday_ms = 0;
            self.last_email_ms = None;
            return false;
        }
        if weekend {
            return false;
        }
        self.down_weekday_ms = self.down_weekday_ms.saturating_add(elapsed_ms);
        let due = match self.last_email_ms {
            None => true,
            Some(t) => now_ms >= t && now_ms - t >= RESEND_MS,
        };
        if self.down_weekday_ms < threshold_ms || !due {
            return false;
        }
        self.last_email_ms = Some(now_ms);
        true
    }
}

/// No reminder goes out while the client is connected, and reminders are at least an
/// hour apart.
pub proof fn law_alerts_only_when_down_and_hourly(
    st: AlertState,
    enabled: bool,
    disconnected: bool,
    weekend: bool,
    elapsed_ms: u64,
    now_ms: u64,
    threshold_ms: u64,
)
    ensures
        tick_spec(st, enabled, disconnected, weekend, elapsed_ms, now_ms, threshold_ms).1 ==> enabled
            && disconnected && !weekend,
        tick_spec(st, enabled, disconnected, weekend, elapsed_ms, now_ms, threshold_ms).1 ==> (
        st.last_email_ms matches Some(t) ==> now_ms - t >= RESEND_MS),
{
}

/// Subject of the reminder.
pub const ALERT_SUBJECT: &'static str = "Pax Americana — connection offline, please reconnect";

/// Subject and text of the one-off test message the operator can request.
pub const TEST_SUBJECT: &'static str = "Pax Americana — test alert";
pub const TEST_BODY: &'static str = "This is a test message. Email alerts are configured correctly.";

/// Hours of `ms`, rounded half up to one decimal, as text (`2.5`).
pub open spec fn hours_text(ms: nat) -> Seq<char> {
    let tenths = (ms * 10 + 1_800_000) / 3_600_000;
    decimal(tenths / 10) + "."@ + seq![digit_char(tenths % 10)]
}

/// The reminder's text for `down_ms` of weekday downtime on `account`.
pub open spec fn alert_body_spec(down_ms: nat, account: Seq<char>) -> Seq<char> {
    "Your trading connection has been offline for about "@ + hours_text(down_ms)
        + " hour(s) during market days.\n\nAccount: "@ + account
        + "\n\nPlease log back into your IB Gateway / Trader Workstation so trading can resume.\n\nYou will keep receiving this reminder hourly until the connection is restored."@
}

/// The reminder's text.
pub fn alert_body(down_ms: u64, account: &str) -> (r: String)
    ensures
        r@ == alert_body_spec(down_ms as nat, account@),
{
    proof {
        reveal_strlit("Your trading connection has been offline for about ");
        reveal_strlit(".");
        reveal_strlit(" hour(s) during market days.\n\nAccount: ");
        reveal_strlit("\n\nPlease log back into your IB Gateway / Trader Workstation so trading can resume.\n\nYou will keep receiving this reminder hourly until the connection is restored.");
    }
    let tenths: u128 = (down_ms as u128 * 10 + 1_800_000) / 3_600_000;
    let whole: u64 = (tenths / 10) as u64;
    let frac: u64 = (tenths % 10) as u64;
    let mut out = "Your trading connection has been offline for about ".to_string();
    push_decimal(&mut out, whole);
    out.append(".");
    out.append(digit_str(frac));
    out.append(" hour(s) during market days.\n\nAccount: ");
    out.append(account);
    out.append("\n\nPlease log back into your IB Gateway / Trader Workstation so trading can resume.\n\nYou will keep receiving this reminder hourly until the connection is restored.");
    proof {
        assert(out@ =~= alert_body_spec(down_ms as nat, account@));
    }
    out
}

/// The sender address: the configured `From`, or the SMTP user when it is blank; trimmed.
pub open spec fn sender_spec(from: Seq<char>, user: Seq<char>) -> Seq<char> {
    if trim(from).len() == 0 {
        trim(user)
    } else {
        trim(from)
    }
}

/// The sender address of the alert mailbox.
pub fn sender(from: &str, user: &str) -> (r: String)
    ensures
        r@ == sender_spec(from@, user@),
{
    let f = trim_str(from);
    if f.unicode_len() == 0 {
        trim_str(user).to_string()
    } else {
        f.to_string()
    }
}

/// An alert can be sent only with an SMTP host, a recipient and a sender.
pub fn mail_ready(host: &str, to: &str, from: &str) -> (r: Result<(), &'static str>)
    ensures
        r is Ok <==> (host@.len() > 0 && to@.len() > 0 && from@.len() > 0),
        r matches Err(m) ==> m@ == "alert email/SMTP not fully configured"@,
{
    proof {
        reveal_strlit("alert email/SMTP not fully configured");
    }
    if host.unicode_len() == 0 || to.unicode_len() == 0 || from.unicode_len() == 0 {
        Err("alert email/SMTP not fully configured")
    } else {
        Ok(())
    }
}

/// Port 465 uses implicit TLS; any other port uses STARTTLS.
pub fn implicit_tls(port: u16) -> (r: bool)
    ensures
        r == (port == 465),
{
    port == 465
}

} // verus!
