//! The IBKR Flex Web Service conversation.
//!
//! A statement is fetched in two steps: `SendRequest` (retried with growing pauses while
//! IBKR reports a transient condition) yields a reference code; `GetStatement` is then
//! polled every two seconds until the statement is ready, fails, or 30 attempts pass.
//! The HTTP itself is done by the caller; this module decides, from each reply, what to
//! do next.

use vstd::prelude::*;

use crate::text::{contains_seq, contains_str, decimal, find_from, find_str_from, opt_usize,
    push_decimal, trim, trim_str};

verus! {

// ── tags ─────────────────────────────────────────────────────────────────────

/// The trimmed text between the first `<tag>` of `xml` and the first `</tag>` after it.
pub open spec fn tag_text(xml: Seq<char>, tag: Seq<char>) -> Option<Seq<char>> {
    let open = "<"@ + tag + ">"@;
    let close = "</"@ + tag + ">"@;
    match find_from(xml, open, 0) {
        None => None,
        Some(i) => {
            let start = i + open.len();
            match find_from(xml, close, start) {
                None => None,
                Some(e) => Some(trim(xml.subrange(start, e))),
            }
        },
    }
}

proof fn lemma_find_bounds(hay: Seq<char>, needle: Seq<char>, from: int)
    requires
        0 <= from,
    ensures
        find_from(hay, needle, from) matches Some(c) ==> from <= c && c + needle.len() <= hay.len(),
    decreases hay.len() + 1 - from,
{
    if from + needle.len() <= hay.len() && !(hay.subrange(from, from + needle.len()) == needle) {
        lemma_find_bounds(hay, needle, from + 1);
    }
}

/// The text of the first `tag` element of an XML reply.
pub fn extract_tag(xml: &str, tag: &str) -> (r: Option<String>)
    ensures
        match tag_text(xml@, tag@) {
            Some(t) => r matches Some(s) && s@ == t,
            None => r is None,
        },
{
    proof {
        reveal_strlit("<");
        reveal_strlit(">");
        reveal_strlit("</");
    }
    let mut open = "<".to_string();
    open.append(tag);
    open.append(">");
    let mut close = "</".to_string();
    close.append(tag);
    close.append(">");
    let n = xml.unicode_len();
    proof {
        lemma_find_bounds(xml@, open@, 0);
    }
    let i = match find_str_from(xml, open.as_str(), 0) {
        Some(i) => i,
        None => {
            return None;
        },
    };
    let start = i + open.as_str().unicode_len();
    proof {
        lemma_find_bounds(xml@, close@, start as int);
    }
    let e = match find_str_from(xml, close.as_str(), start) {
        Some(e) => e,
        None => {
            return None;
        },
    };
    let inner = xml.substring_char(start, e);
    Some(trim_str(inner).to_string())
}

// ── the conversation ─────────────────────────────────────────────────────────

/// Where the conversation stands.
#[derive(Debug)]
pub enum FlexPhase {
    /// Waiting for the reply to `SendRequest` attempt `retry` (0 is the first).
    Sending { retry: usize },
    /// Waiting for the reply to `GetStatement` poll `attempts` (1 is the first).
    Polling { reference: String, attempts: u32 },
}

/// What the HTTP layer saw.
#[derive(Debug)]
pub enum FlexEvent {
    /// The request failed; the transport's error text.
    HttpError(String),
    /// The reply could not be read; the reader's error text.
    ReadError(String),
    /// The reply body.
    Body(String),
}

/// What to do next.
#[derive(Debug)]
pub enum FlexAction {
    /// Show `status` (when given), wait `wait_secs`, then GET `url`.
    Request { wait_secs: u64, status: Option<String>, url: String },
    /// The statement is in; parse it.
    Parse(String),
    /// Stop with this error.
    Fail(String),
}

pub open spec fn send_url(token: Seq<char>, query: Seq<char>) -> Seq<char> {
    "https://gdcdyn.interactivebrokers.com/Universal/servlet/FlexStatementService.SendRequest?t="@
        + token + "&q="@ + query + "&v=3"@
}

pub open spec fn get_url(token: Seq<char>, reference: Seq<char>) -> Seq<char> {
    "https://gdcdyn.interactivebrokers.com/Universal/servlet/FlexStatementService.GetStatement?t="@
        + token + "&q="@ + reference + "&v=3"@
}

/// Pause before `SendRequest` attempt `retry`; IBKR limits requests per token and
/// statement generation can take time.
pub open spec fn retry_delay(retry: int) -> u64 {
    if retry == 0 {
        0
    } else if retry == 1 {
        30
    } else if retry <= 3 {
        60
    } else if retry == 4 {
        90
    } else {
        120
    }
}

/// Number of `SendRequest` attempts.
pub const SEND_ATTEMPTS: usize = 6;

/// Most `GetStatement` polls.
pub const MAX_POLLS: u32 = 30;

/// IBKR's reply reports a condition worth retrying.
pub open spec fn transient(msg: Seq<char>) -> bool {
    contains_seq(msg, "try again"@) || contains_seq(msg, "could not be generated"@)
        || contains_seq(msg, "heavy load"@) || contains_seq(msg, "Too many"@)
}

pub open spec fn or_empty(o: Option<Seq<char>>) -> Seq<char> {
    match o {
        Some(s) => s,
        None => Seq::empty(),
    }
}

/// The view of an action: `(kind, wait, status, text)` with kind 0 request, 1 parse,
/// 2 fail; `text` is the URL, the statement or the error.
pub open spec fn action_view(a: FlexAction) -> (int, int, Option<Seq<char>>, Seq<char>) {
    match a {
        FlexAction::Request { wait_secs, status, url } => (0, wait_secs as int, match status {
            Some(s) => Some(s@),
            None => None,
        }, url@),
        FlexAction::Parse(x) => (1, 0, None, x@),
        FlexAction::Fail(m) => (2, 0, None, m@),
    }
}

pub open spec fn request(wait: int, status: Option<Seq<char>>, url: Seq<char>) -> (int, int, Option<Seq<char>>, Seq<char>) {
    (0, wait, status, url)
}

pub open spec fn fail(msg: Seq<char>) -> (int, int, Option<Seq<char>>, Seq<char>) {
    (2, 0, None, msg)
}

/// The view of a phase: `(retry or attempts, reference)`, `None` when the conversation
/// is over.
pub open spec fn phase_view(p: Option<FlexPhase>) -> Option<(bool, int, Seq<char>)> {
    match p {
        Some(FlexPhase::Sending { retry }) => Some((true, retry as int, Seq::empty())),
        Some(FlexPhase::Polling { reference, attempts }) => Some((false, attempts as int, reference@)),
        None => None,
    }
}

/// The busy notice shown before retry `retry`.
pub open spec fn busy_status(retry: int) -> Seq<char> {
    "IBKR busy — waiting "@ + decimal(retry_delay(retry) as nat) + "s then retry "@ + decimal(
        retry as nat,
    ) + "/5…"@
}

/// How the conversation goes on from `phase` after `event`.
pub open spec fn step_spec(
    sending: bool,
    count: int,
    reference: Seq<char>,
    event: FlexEvent,
    token: Seq<char>,
    query: Seq<char>,
) -> (Option<(bool, int, Seq<char>)>, (int, int, Option<Seq<char>>, Seq<char>)) {
    match event {
        FlexEvent::HttpError(e) => (None, fail("HTTP error: "@ + e@)),
        FlexEvent::ReadError(e) => (None, fail("Read error: "@ + e@)),
        FlexEvent::Body(b) => if sending {
            match tag_text(b@, "ReferenceCode"@) {
                Some(code) => (
                    Some((false, 1, code)),
                    request(2, Some("Statement generating (ref "@ + code + ")…"@), get_url(token, code)),
                ),
                None => {
                    let msg = or_empty(tag_text(b@, "ErrorMessage"@));
                    if !transient(msg) {
                        (None, fail("Flex: "@ + msg))
                    } else if count + 1 < SEND_ATTEMPTS {
                        (
                            Some((true, count + 1, Seq::empty())),
                            request(
                                retry_delay(count + 1) as int,
                                Some(busy_status(count + 1)),
                                send_url(token, query),
                            ),
                        )
                    } else {
                        (None, fail("IBKR unavailable after retries. Wait 5 min, then FETCH again."@))
                    }
                },
            }
        } else {
            if contains_seq(b@, "<FlexStatements"@) || contains_seq(b@, "<FlexQueryResponse"@) {
                (None, (1, 0, None, b@))
            } else if contains_seq(b@, "<Status>Fail</Status>"@) {
                (None, fail("Flex error: "@ + match tag_text(b@, "ErrorMessage"@) {
                    Some(m) => m,
                    None => "Unknown"@,
                }))
            } else if count + 1 > MAX_POLLS {
                (None, fail("Flex statement timed out."@))
            } else {
                (
                    Some((false, count + 1, reference)),
                    request(
                        2,
                        if contains_seq(b@, "Statement generation in progress"@) {
                            Some("Generating… (attempt "@ + decimal(count as nat) + ")"@)
                        } else {
                            None
                        },
                        get_url(token, reference),
                    ),
                )
            }
        },
    }
}

fn flex_url(base: &str, token: &str, q: &str) -> (r: String)
    ensures
        r@ == base@ + "?t="@ + token@ + "&q="@ + q@ + "&v=3"@,
{
    proof {
        reveal_strlit("?t=");
        reveal_strlit("&q=");
        reveal_strlit("&v=3");
    }
    let mut u = base.to_string();
    u.append("?t=");
    u.append(token);
    u.append("&q=");
    u.append(q);
    u.append("&v=3");
    u
}

fn send_request_url(token: &str, query: &str) -> (r: String)
    ensures
        r@ == send_url(token@, query@),
{
    proof {
        reveal_strlit("https://gdcdyn.interactivebrokers.com/Universal/servlet/FlexStatementService.SendRequest");
        reveal_strlit("https://gdcdyn.interactivebrokers.com/Universal/servlet/FlexStatementService.SendRequest?t=");
        reveal_strlit("?t=");
    }
    let r = flex_url("https://gdcdyn.interactivebrokers.com/Universal/servlet/FlexStatementService.SendRequest", token, query);
    proof {
        assert(r@ =~= send_url(token@, query@));
    }
    r
}

fn get_statement_url(token: &str, reference: &str) -> (r: String)
    ensures
        r@ == get_url(token@, reference@),
{
    proof {
        reveal_strlit("https://gdcdyn.interactivebrokers.com/Universal/servlet/FlexStatementService.GetStatement");
        reveal_strlit("https://gdcdyn.interactivebrokers.com/Universal/servlet/FlexStatementService.GetStatement?t=");
        reveal_strlit("?t=");
    }
    let r = flex_url("https://gdcdyn.interactivebrokers.com/Universal/servlet/FlexStatementService.GetStatement", token, reference);
    proof {
        assert(r@ =~= get_url(token@, reference@));
    }
    r
}

/// The pause before a `SendRequest` attempt.
pub fn delay_before(retry: usize) -> (r: u64)
    ensures
        r == retry_delay(retry as int),
{
    if retry == 0 {
        0
    } else if retry == 1 {
        30
    } else if retry <= 3 {
        60
    } else if retry == 4 {
        90
    } else {
        120
    }
}

/// Open the conversation: the first `SendRequest`, announced as being sent.
pub fn flex_start(token: &str, query: &str) -> (r: (FlexPhase, FlexAction))
    ensures
        phase_view(Some(r.0)) == Some((true, 0int, Seq::<char>::empty())),
        action_view(r.1) == request(0, Some("Sending request to IBKR…"@), send_url(token@, query@)),
{
    proof {
        reveal_strlit("Sending request to IBKR…");
    }
    (
        FlexPhase::Sending { retry: 0 },
        FlexAction::Request {
            wait_secs: 0,
            status: Some("Sending request to IBKR…".to_string()),
            url: send_request_url(token, query),
        },
    )
}

fn prefixed(p: &str, s: &str) -> (r: String)
    ensures
        r@ == p@ + s@,
{
    let mut m = p.to_string();
    m.append(s);
    m
}

/// Advance the conversation by one HTTP outcome.
pub fn flex_step(phase: FlexPhase, event: FlexEvent, token: &str, query: &str) -> (r: (
    Option<FlexPhase>,
    FlexAction,
))
    requires
        phase matches FlexPhase::Sending { retry } ==> retry < SEND_ATTEMPTS,
        phase matches FlexPhase::Polling { attempts, .. } ==> attempts <= MAX_POLLS,
    ensures
        ({
            let (sending, count, reference) = match phase {
                FlexPhase::Sending { retry } => (true, retry as int, Seq::<char>::empty()),
                FlexPhase::Polling { reference, attempts } => (false, attempts as int, reference@),
            };
            let s = step_spec(sending, count, reference, event, token@, query@);
            phase_view(r.0) == s.0 && action_view(r.1) == s.1
        }),
{
    proof {
        reveal_strlit("HTTP error: ");
        reveal_strlit("Read error: ");
        reveal_strlit("ReferenceCode");
        reveal_strlit("ErrorMessage");
        reveal_strlit("Statement generating (ref ");
        reveal_strlit(")…");
        reveal_strlit("Flex: ");
        reveal_strlit("try again");
        reveal_strlit("could not be generated");
        reveal_strlit("heavy load");
        reveal_strlit("Too many");
        reveal_strlit("IBKR busy — waiting ");
        reveal_strlit("s then retry ");
        reveal_strlit("/5…");
        reveal_strlit("IBKR unavailable after retries. Wait 5 min, then FETCH again.");
        reveal_strlit("<FlexStatements");
        reveal_strlit("<FlexQueryResponse");
        reveal_strlit("<Status>Fail</Status>");
        reveal_strlit("Flex error: ");
        reveal_strlit("Unknown");
        reveal_strlit("Flex statement timed out.");
        reveal_strlit("Statement generation in progress");
        reveal_strlit("Generating… (attempt ");
        reveal_strlit(")");
    }
    let body = match event {
        FlexEvent::HttpError(e) => {
            return (None, FlexAction::Fail(prefixed("HTTP error: ", e.as_str())));
        },
        FlexEvent::ReadError(e) => {
            return (None, FlexAction::Fail(prefixed("Read error: ", e.as_str())));
        },
        FlexEvent::Body(b) => b,
    };
    match phase {
        FlexPhase::Sending { retry } => {
            if let Some(code) = extract_tag(body.as_str(), "ReferenceCode") {
                let mut status = "Statement generating (ref ".to_string();
                status.append(code.as_str());
                status.append(")…");
                let url = get_statement_url(token, code.as_str());
                return (
                    Some(FlexPhase::Polling { reference: code, attempts: 1 }),
                    FlexAction::Request { wait_secs: 2, status: Some(status), url },
                );
            }
            let msg = match extract_tag(body.as_str(), "ErrorMessage") {
                Some(m) => m,
                None => String::new(),
            };
            let t = contains_str(msg.as_str(), "try again") || contains_str(msg.as_str(), "could not be generated")
                || contains_str(msg.as_str(), "heavy load") || contains_str(msg.as_str(), "Too many");
            if !t {
                return (None, FlexAction::Fail(prefixed("Flex: ", msg.as_str())));
            }
            if retry + 1 < SEND_ATTEMPTS {
                let next = retry + 1;
                let wait = delay_before(next);
                let mut status = "IBKR busy — waiting ".to_string();
                push_decimal(&mut status, wait);
                status.append("s then retry ");
                push_decimal(&mut status, next as u64);
                status.append("/5…");
                let url = send_request_url(token, query);
                (
                    Some(FlexPhase::Sending { retry: next }),
                    FlexAction::Request { wait_secs: wait, status: Some(status), url },
                )
            } else {
                (None, FlexAction::Fail("IBKR unavailable after retries. Wait 5 min, then FETCH again.".to_string()))
            }
        },
        FlexPhase::Polling { reference, attempts } => {
            if contains_str(body.as_str(), "<FlexStatements") || contains_str(body.as_str(), "<FlexQueryResponse") {
                return (None, FlexAction::Parse(body));
            }
            if contains_str(body.as_str(), "<Status>Fail</Status>") {
                let detail = match extract_tag(body.as_str(), "ErrorMessage") {
                    Some(m) => m,
                    None => "Unknown".to_string(),
                };
                return (None, FlexAction::Fail(prefixed("Flex error: ", detail.as_str())));
            }
            if attempts + 1 > MAX_POLLS {
                return (None, FlexAction::Fail("Flex statement timed out.".to_string()));
            }
            let status = if contains_str(body.as_str(), "Statement generation in progress") {
                let mut st = "Generating… (attempt ".to_string();
                push_decimal(&mut st, attempts as u64);
                st.append(")");
                Some(st)
            } else {
                None
            };
            let url = get_statement_url(token, reference.as_str());
            (
                Some(FlexPhase::Polling { reference, attempts: attempts + 1 }),
                FlexAction::Request { wait_secs: 2, status, url },
            )
        },
    }
}

/// The conversation cannot run away: sending stops after six attempts, and polling after
/// thirty.
pub proof fn law_flex_conversation_is_bounded(
    sending: bool,
    count: int,
    reference: Seq<char>,
    event: FlexEvent,
    token: Seq<char>,
    query: Seq<char>,
)
    requires
        0 <= count,
    ensures
        step_spec(sending, count, reference, event, token, query).0 matches Some((s, c, _)) ==> (s
            ==> sending && c == count + 1 && c < SEND_ATTEMPTS) && (!s ==> c <= MAX_POLLS && (!sending
            ==> c == count + 1)),
{
}

} // verus!
