//! Text shown in the desktop windows: money with thousands separators, log tags, the
//! recent-log panel, and the status lines.

use vstd::prelude::*;

use crate::client_state::{LogLevel, LogLine, Status};
use crate::text::{decimal, push_decimal, u64_to_string, zero_padded};

verus! {

/// Digits grouped in threes from the right, separated by `,`.
pub open spec fn grouped(d: Seq<char>) -> Seq<char>
    decreases d.len(),
{
    if d.len() > 3 {
        grouped(d.subrange(0, d.len() - 3)) + ","@ + d.subrange(d.len() - 3, d.len() as int)
    } else {
        d
    }
}

/// A fixed-point amount as dollars: a `-` for negative amounts, `$`, the whole dollars
/// grouped in threes, `.`, and two digits of cents. The magnitude is rounded half away
/// from zero to whole cents first, so 99.5 cents or more carries into the dollars.
pub open spec fn money_text(v: int) -> Seq<char> {
    let a = if v < 0 {
        -v
    } else {
        v
    };
    let total_cents = (a + 50) / 100;
    let whole = total_cents / 100;
    let cents = total_cents % 100;
    (if v < 0 {
        "-"@
    } else {
        Seq::empty()
    }) + "$"@ + grouped(decimal(whole as nat)) + "."@ + zero_padded(cents as nat, 2)
}

fn group_digits(d: &str) -> (r: String)
    ensures
        r@ == grouped(d@),
    decreases d@.len(),
{
    let n = d.unicode_len();
    if n > 3 {
        proof {
            reveal_strlit(",");
        }
        let mut head = group_digits(d.substring_char(0, n - 3));
        head.append(",");
        head.append(d.substring_char(n - 3, n));
        head
    } else {
        d.to_string()
    }
}

/// Format a fixed-point amount as dollars with thousands separators.
pub fn money(v: i64) -> (r: String)
    ensures
        r@ == money_text(v as int),
{
    proof {
        reveal_strlit("-");
        reveal_strlit("$");
        reveal_strlit(".");
        reveal_strlit("0");
    }
    let a: u64 = if v < 0 {
        if v == i64::MIN {
            9223372036854775808u64
        } else {
            (-v) as u64
        }
    } else {
        v as u64
    };
    let total_cents = (a + 50) / 100;
    let whole = total_cents / 100;
    let cents = total_cents % 100;
    let digits = u64_to_string(whole);
    let g = group_digits(digits.as_str());
    let mut out = String::new();
    if v < 0 {
        out.append("-");
    }
    out.append("$");
    out.append(g.as_str());
    out.append(".");
    if cents < 10 {
        out.append("0");
    }
    push_decimal(&mut out, cents);
    proof {
        crate::text::lemma_decimal_nonempty(cents as nat);
        if cents < 10 {
            assert(decimal(cents as nat).len() == 1);
            assert(zero_padded(cents as nat, 2) =~= seq!['0'] + decimal(cents as nat));
        } else {
            assert(decimal(cents as nat) =~= decimal((cents / 10) as nat).push(crate::text::digit_char((cents % 10) as nat)));
            crate::text::lemma_decimal_nonempty((cents / 10) as nat);
            assert(decimal(cents as nat).len() >= 2);
            assert(zero_padded(cents as nat, 2) =~= decimal(cents as nat));
        }
        assert(out@ =~= money_text(v as int));
    }
    out
}

/// The fixed-width tag of a client log level.
pub open spec fn tag_text(l: LogLevel) -> Seq<char> {
    match l {
        LogLevel::Success => "OK  "@,
        LogLevel::Warn => "WARN"@,
        LogLevel::Error => "ERR "@,
        LogLevel::Info => "INFO"@,
        LogLevel::Buy => "BUY "@,
        LogLevel::Sell => "SELL"@,
    }
}

/// The fixed-width tag of a client log level.
pub fn tag(l: LogLevel) -> (r: &'static str)
    ensures
        r@ == tag_text(l),
{
    proof {
        reveal_strlit("OK  ");
        reveal_strlit("WARN");
        reveal_strlit("ERR ");
        reveal_strlit("INFO");
        reveal_strlit("BUY ");
        reveal_strlit("SELL");
    }
    match l {
        LogLevel::Success => "OK  ",
        LogLevel::Warn => "WARN",
        LogLevel::Error => "ERR ",
        LogLevel::Info => "INFO",
        LogLevel::Buy => "BUY ",
        LogLevel::Sell => "SELL",
    }
}

/// Most log lines the log panel shows.
pub const PANEL_LINES: usize = 250;

/// One log line as the panel shows it: `[ts] TAG msg` and a newline.
pub open spec fn panel_line(l: LogLine) -> Seq<char> {
    "["@ + l.ts@ + "] "@ + tag_text(l.level) + " "@ + l.msg@ + "\n"@
}

/// The panel text of `lines`.
pub open spec fn panel_text(lines: Seq<LogLine>) -> Seq<char>
    decreases lines.len(),
{
    if lines.len() == 0 {
        Seq::empty()
    } else {
        panel_text(lines.drop_last()) + panel_line(lines.last())
    }
}

/// The log panel: the newest `PANEL_LINES` lines, oldest first.
pub fn recent_log(lines: &[LogLine]) -> (r: String)
    ensures
        r@ == panel_text(lines@.subrange(
            if lines@.len() > PANEL_LINES {
                lines@.len() - PANEL_LINES
            } else {
                0
            },
            lines@.len() as int,
        )),
{
    proof {
        reveal_strlit("[");
        reveal_strlit("] ");
        reveal_strlit(" ");
        reveal_strlit("\n");
    }
    let n = lines.len();
    let start: usize = if n > PANEL_LINES {
        n - PANEL_LINES
    } else {
        0
    };
    let ghost shown = lines@.subrange(start as int, n as int);
    let mut out = String::new();
    let mut i = start;
    proof {
        assert(shown.take(0) =~= Seq::<LogLine>::empty());
    }
    while i < n
        invariant
            n == lines@.len(),
            start <= i <= n,
            shown == lines@.subrange(start as int, n as int),
            out@ == panel_text(shown.take(i - start)),
        decreases n - i,
    {
        let ghost prev = out@;
        out.append("[");
        out.append(lines[i].ts.as_str());
        out.append("] ");
        out.append(tag(lines[i].level));
        out.append(" ");
        out.append(lines[i].msg.as_str());
        out.append("\n");
        proof {
            let next = shown.take(i - start + 1);
            assert(next.drop_last() =~= shown.take(i - start));
            assert(next.last() == lines@[i as int]);
            assert(out@ =~= prev + panel_line(lines@[i as int]));
        }
        i = i + 1;
    }
    proof {
        assert(shown.take(n - start) =~= shown);
    }
    out
}

// ── status lines ─────────────────────────────────────────────────────────────

/// The headline of the client window: a drawdown halt first, then the connection state.
pub open spec fn headline_spec(drawdown_hit: bool, connected: bool, running: bool) -> Seq<char> {
    if drawdown_hit {
        "⚠ DRAWDOWN HALT"@
    } else if connected {
        "● CONNECTED — syncing"@
    } else if running {
        "… connecting"@
    } else {
        "■ STOPPED"@
    }
}

/// The headline of the client window.
pub fn status_headline(drawdown_hit: bool, connected: bool, running: bool) -> (r: &'static str)
    ensures
        r@ == headline_spec(drawdown_hit, connected, running),
{
    proof {
        reveal_strlit("⚠ DRAWDOWN HALT");
        reveal_strlit("● CONNECTED — syncing");
        reveal_strlit("… connecting");
        reveal_strlit("■ STOPPED");
    }
    if drawdown_hit {
        "⚠ DRAWDOWN HALT"
    } else if connected {
        "● CONNECTED — syncing"
    } else if running {
        "… connecting"
    } else {
        "■ STOPPED"
    }
}

/// The position and order counters: `M·C <master>·<client>   Opened <n>  Closed <n>
/// Failed <n>`.
pub open spec fn counts_spec(s: Status) -> Seq<char> {
    "M·C "@ + decimal(s.master_positions as nat) + "·"@ + decimal(s.client_positions as nat)
        + "   Opened "@ + decimal(s.orders_placed as nat) + "  Closed "@ + decimal(
        s.orders_closed as nat,
    ) + "  Failed "@ + decimal(s.orders_failed as nat)
}

/// The counters line of the client window.
pub fn counts_line(s: &Status) -> (r: String)
    ensures
        r@ == counts_spec(*s),
{
    proof {
        reveal_strlit("M·C ");
        reveal_strlit("·");
        reveal_strlit("   Opened ");
        reveal_strlit("  Closed ");
        reveal_strlit("  Failed ");
    }
    let mut out = "M·C ".to_string();
    push_decimal(&mut out, s.master_positions as u64);
    out.append("·");
    push_decimal(&mut out, s.client_positions as u64);
    out.append("   Opened ");
    push_decimal(&mut out, s.orders_placed);
    out.append("  Closed ");
    push_decimal(&mut out, s.orders_closed);
    out.append("  Failed ");
    push_decimal(&mut out, s.orders_failed);
    proof {
        assert(out@ =~= counts_spec(*s));
    }
    out
}

// ── the master's window ──────────────────────────────────────────────────────

/// The headline of the master window.
pub fn master_headline(connected: bool) -> (r: &'static str)
    ensures
        r@ == (if connected {
            "● CONNECTED — broadcasting"@
        } else {
            "✕ DISCONNECTED — connecting…"@
        }),
{
    proof {
        reveal_strlit("● CONNECTED — broadcasting");
        reveal_strlit("✕ DISCONNECTED — connecting…");
    }
    if connected {
        "● CONNECTED — broadcasting"
    } else {
        "✕ DISCONNECTED — connecting…"
    }
}

/// `Account: <id>`, or `Account: —` before the account is known.
pub fn account_label(account: &str) -> (r: String)
    ensures
        r@ == "Account: "@ + (if account@.len() == 0 {
            "—"@
        } else {
            account@
        }),
{
    proof {
        reveal_strlit("Account: ");
        reveal_strlit("—");
    }
    let mut out = "Account: ".to_string();
    if account.unicode_len() == 0 {
        out.append("—");
    } else {
        out.append(account);
    }
    out
}

/// The fixed-width tag of a master log level.
pub fn master_tag(l: crate::master_state::LogLevel) -> (r: &'static str)
    ensures
        r@ == (match l {
            crate::master_state::LogLevel::Success => "OK  "@,
            crate::master_state::LogLevel::Warn => "WARN"@,
            crate::master_state::LogLevel::Error => "ERR "@,
            crate::master_state::LogLevel::Info => "INFO"@,
        }),
{
    proof {
        reveal_strlit("OK  ");
        reveal_strlit("WARN");
        reveal_strlit("ERR ");
        reveal_strlit("INFO");
    }
    match l {
        crate::master_state::LogLevel::Success => "OK  ",
        crate::master_state::LogLevel::Warn => "WARN",
        crate::master_state::LogLevel::Error => "ERR ",
        crate::master_state::LogLevel::Info => "INFO",
    }
}

} // verus!
