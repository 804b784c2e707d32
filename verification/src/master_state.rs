//! Master-side shared state: the bounded activity log, the IB connection parameters and
//! the update-check status shown in the GUI.

use vstd::prelude::*;

use crate::client_state::keep_last;
use crate::clock::{clock_unix_millis, hms_spec, hms_string};
use crate::text::{decimal, push_decimal};

verus! {

/// Severity of a master log line.
#[derive(Debug, Clone, Copy, PartialEq, Eq, Structural)]
pub enum LogLevel {
    Info,
    Success,
    Warn,
    Error,
}

/// One timestamped master log line.
#[derive(Debug)]
pub struct LogLine {
    pub ts: String,
    pub level: LogLevel,
    pub msg: String,
}

/// The mathematical content of a [`LogLine`].
pub struct LogLineView {
    pub ts: Seq<char>,
    pub level: LogLevel,
    pub msg: Seq<char>,
}

impl View for LogLine {
    type V = LogLineView;

    open spec fn view(&self) -> LogLineView {
        LogLineView { ts: self.ts@, level: self.level, msg: self.msg@ }
    }
}

impl Clone for LogLine {
    fn clone(&self) -> (r: Self)
        ensures
            r == *self,
    {
        LogLine { ts: self.ts.clone(), level: self.level, msg: self.msg.clone() }
    }
}

/// How many lines the master log keeps.
pub const MASTER_LOG_CAP: usize = 500;

/// Bounded in-memory log shared with the GUI: the most recent [`MASTER_LOG_CAP`] lines,
/// oldest first.
#[derive(Debug)]
pub struct LogBuffer {
    lines: Vec<LogLine>,
}

impl View for LogBuffer {
    type V = Seq<LogLineView>;

    closed spec fn view(&self) -> Seq<LogLineView> {
        self.lines@.map_values(|l: LogLine| l@)
    }
}

impl Default for LogBuffer {
    fn default() -> (r: LogBuffer)
        ensures
            r@ == Seq::<LogLineView>::empty(),
    {
        let r = LogBuffer { lines: Vec::new() };
        proof {
            assert(r@ =~= Seq::<LogLineView>::empty());
        }
        r
    }
}

/// Drop lines from the front of `lines` until at most `cap` remain.
fn drop_oldest(lines: &mut Vec<LogLine>, cap: usize)
    ensures
        final(lines)@ == keep_last(old(lines)@, cap as nat),
{
    let ghost orig = lines@;
    while lines.len() > cap
        invariant
            lines@.len() <= orig.len(),
            lines@ == orig.subrange(orig.len() - lines@.len(), orig.len() as int),
            orig.len() > cap ==> lines@.len() >= cap,
            orig.len() <= cap ==> lines@.len() == orig.len(),
        decreases lines.len(),
    {
        lines.remove(0);
    }
    proof {
        assert(lines@ =~= keep_last(orig, cap as nat));
    }
}

impl LogBuffer {
    /// Append a line stamped `ts`, dropping the oldest lines beyond the cap.
    pub fn push_at(&mut self, level: LogLevel, msg: &str, ts: String)
        ensures
            final(self)@ == keep_last(
                old(self)@.push(LogLineView { ts: ts@, level, msg: msg@ }),
                MASTER_LOG_CAP as nat,
            ),
    {
        let ghost before = self.lines@;
        let line = LogLine { ts, level, msg: msg.to_string() };
        self.lines.push(line);
        proof {
            assert(self.lines@ == before.push(line));
        }
        drop_oldest(&mut self.lines, MASTER_LOG_CAP);
        proof {
            let pushed = before.push(line);
            assert(pushed.map_values(|l: LogLine| l@) =~= before.map_values(|l: LogLine| l@).push(
                line@,
            ));
            assert(keep_last(pushed, MASTER_LOG_CAP as nat).map_values(|l: LogLine| l@) =~= keep_last(
                pushed.map_values(|l: LogLine| l@),
                MASTER_LOG_CAP as nat,
            ));
        }
    }

    /// Append a line stamped with the current wall-clock time, dropping the oldest lines
    /// beyond the cap.
    pub fn push(&mut self, level: LogLevel, msg: &str)
        ensures
            exists|secs: nat|
                final(self)@ == keep_last(
                    #[trigger] old(self)@.push(LogLineView { ts: hms_spec(secs), level, msg: msg@ }),
                    MASTER_LOG_CAP as nat,
                ),
    {
        let secs = clock_unix_millis() / 1000;
        let ts = hms_string(secs);
        self.push_at(level, msg, ts);
    }

    /// The retained lines, oldest first.
    pub fn lines(&self) -> (r: &[LogLine])
        ensures
            r@.map_values(|l: LogLine| l@) == self@,
    {
        self.lines.as_slice()
    }
}

/// The master log never holds more than [`MASTER_LOG_CAP`] lines, and the newest line is
/// the one just pushed.
pub proof fn law_master_log_keeps_newest(before: Seq<LogLineView>, line: LogLineView)
    requires
        before.len() <= MASTER_LOG_CAP,
    ensures
        keep_last(before.push(line), MASTER_LOG_CAP as nat).len() <= MASTER_LOG_CAP,
        keep_last(before.push(line), MASTER_LOG_CAP as nat).last() == line,
        before.len() == MASTER_LOG_CAP ==> keep_last(before.push(line), MASTER_LOG_CAP as nat)
            == before.drop_first().push(line),
{
    if before.len() == MASTER_LOG_CAP {
        assert(keep_last(before.push(line), MASTER_LOG_CAP as nat) =~= before.drop_first().push(
            line,
        ));
    }
}

/// Which IBKR endpoint the master connects to. Toggleable at runtime in the GUI.
#[derive(Debug, Clone, Copy, PartialEq, Eq, Structural)]
pub enum IbMode {
    Live,
    Paper,
}

/// GUI-editable IB connection parameters.
#[derive(Debug)]
pub struct ConnParams {
    pub host: String,
    pub port_live: u16,
    pub port_paper: u16,
    pub mode: IbMode,
}

impl Clone for ConnParams {
    fn clone(&self) -> (r: Self)
        ensures
            r == *self,
    {
        ConnParams {
            host: self.host.clone(),
            port_live: self.port_live,
            port_paper: self.port_paper,
            mode: self.mode,
        }
    }
}

/// The port of the endpoint that `mode` selects.
pub open spec fn port_for(p: ConnParams) -> u16 {
    match p.mode {
        IbMode::Live => p.port_live,
        IbMode::Paper => p.port_paper,
    }
}

impl ConnParams {
    /// The port of the selected endpoint.
    pub fn port(&self) -> (r: u16)
        ensures
            r == port_for(*self),
    {
        match self.mode {
            IbMode::Live => self.port_live,
            IbMode::Paper => self.port_paper,
        }
    }

    /// `host:port` of the selected endpoint.
    pub fn endpoint(&self) -> (r: String)
        ensures
            r@ == self.host@ + ":"@ + decimal(port_for(*self) as nat),
    {
        let mut s = self.host.clone();
        proof {
            reveal_strlit(":");
        }
        s.append(":");
        push_decimal(&mut s, self.port() as u64);
        s
    }
}

/// Non-invasive update-check status surfaced in the GUI.
#[derive(Debug)]
pub struct UpdateStatus {
    pub message: String,
    pub available: bool,
    pub url: String,
}

impl Default for UpdateStatus {
    fn default() -> (r: UpdateStatus)
        ensures
            r.message@ == Seq::<char>::empty(),
            !r.available,
            r.url@ == Seq::<char>::empty(),
    {
        UpdateStatus { message: String::new(), available: false, url: String::new() }
    }
}

impl Clone for UpdateStatus {
    fn clone(&self) -> (r: Self)
        ensures
            r == *self,
    {
        UpdateStatus {
            message: self.message.clone(),
            available: self.available,
            url: self.url.clone(),
        }
    }
}

/// The current UTC wall-clock time as `HH:MM:SS`.
pub fn now_hms() -> (r: String)
    ensures
        exists|secs: nat| r@ == #[trigger] hms_spec(secs),
{
    let secs = clock_unix_millis() / 1000;
    hms_string(secs)
}

/// Milliseconds since the UNIX epoch, as the system clock reads them.
pub fn now_ms() -> (r: u64) {
    clock_unix_millis()
}

} // verus!
