//! The client's view of the master's HTTP API: where the snapshot lives, how a failed
//! fetch is reported, and which snapshots are accepted.

use vstd::prelude::*;

use crate::protocol::{MasterSnapshot, PROTOCOL_SCHEMA};
use crate::text::{decimal, find_from, find_str_from, opt_usize, push_decimal, replace_all,
    replace_str, trim, trim_end_char, trim_end_matches_char, trim_str};

verus! {

/// Where the master's snapshot is served, and the shared secret sent with each request.
#[derive(Debug)]
pub struct MasterApi {
    base: String,
    api_key: String,
}

/// How one fetch of the snapshot ended, as the HTTP layer saw it.
#[derive(Debug)]
pub enum FetchOutcome {
    /// The request failed; the transport's error text.
    Unreachable(String),
    /// The response body could not be read; the reader's error text.
    ReadFailed(String),
    /// The body is not a snapshot; the parser's error text.
    BadData(String),
    /// The body parsed as a snapshot.
    Parsed(MasterSnapshot),
}

/// `msg` with the server address removed, so it never lands in the visible log: every
/// occurrence of `base` becomes `host`; then, when the text holds `/snapshot` followed
/// later by `: `, everything up to and including that `: ` is dropped; the rest is
/// trimmed, and an empty result reads `no response`.
pub open spec fn scrub_spec(msg: Seq<char>, base: Seq<char>) -> Seq<char> {
    let s1 = replace_all(msg, base, "host"@);
    let s2 = match find_from(s1, "/snapshot"@, 0) {
        Some(i) => match find_from(s1, ": "@, i) {
            Some(c) => s1.skip(c + 2),
            None => s1,
        },
        None => s1,
    };
    let t = trim(s2);
    if t.len() == 0 {
        "no response"@
    } else {
        t
    }
}

/// Remove the server address from an error string.
pub fn scrub_url(msg: &str, base: &str) -> (r: String)
    ensures
        r@ == scrub_spec(msg@, base@),
{
    proof {
        reveal_strlit("host");
        reveal_strlit("/snapshot");
        reveal_strlit(": ");
        reveal_strlit("no response");
    }
    let s1 = replace_str(msg, base, "host");
    proof {
        lemma_find_in_bounds(s1@, "/snapshot"@, 0);
    }
    let n1 = s1.as_str().unicode_len();
    let mut s2: &str = s1.as_str();
    match find_str_from(s1.as_str(), "/snapshot", 0) {
        Some(i) => {
            proof {
                lemma_find_in_bounds(s1@, ": "@, i as int);
            }
            match find_str_from(s1.as_str(), ": ", i) {
                Some(c) => {
                    s2 = s1.as_str().substring_char(c + 2, n1);
                    proof {
                        assert(s2@ =~= s1@.skip(c + 2));
                    }
                },
                None => {},
            }
        },
        None => {},
    }
    let t = trim_str(s2);
    if t.unicode_len() == 0 {
        "no response".to_string()
    } else {
        t.to_string()
    }
}

proof fn lemma_find_in_bounds(hay: Seq<char>, needle: Seq<char>, from: int)
    requires
        0 <= from,
    ensures
        find_from(hay, needle, from) matches Some(c) ==> from <= c && c + needle.len() <= hay.len(),
    decreases hay.len() + 1 - from,
{
    if from + needle.len() <= hay.len() && !(0 <= from && from + needle.len() <= hay.len()
        && hay.subrange(from, from + needle.len()) == needle) {
        lemma_find_in_bounds(hay, needle, from + 1);
    }
}

/// The error text of a schema mismatch.
pub open spec fn mismatch_message(remote: u32) -> Seq<char> {
    "version mismatch (remote "@ + decimal(remote as nat) + ", local "@ + decimal(
        PROTOCOL_SCHEMA as nat,
    ) + ")"@
}

/// What the engine logs (or trades on) for one fetch outcome against the master at
/// `base`.
pub open spec fn outcome_result(base: Seq<char>, o: FetchOutcome) -> Result<MasterSnapshot, Seq<char>> {
    match o {
        FetchOutcome::Unreachable(e) => Err("unreachable ("@ + scrub_spec(e@, base) + ")"@),
        FetchOutcome::ReadFailed(e) => Err("read failed: "@ + e@),
        FetchOutcome::BadData(e) => Err("bad data: "@ + e@),
        FetchOutcome::Parsed(s) => if s.schema == PROTOCOL_SCHEMA {
            Ok(s)
        } else {
            Err(mismatch_message(s.schema))
        },
    }
}

/// The result with its error text as a character sequence.
pub open spec fn result_view(r: Result<MasterSnapshot, String>) -> Result<MasterSnapshot, Seq<char>> {
    match r {
        Ok(s) => Ok(s),
        Err(e) => Err(e@),
    }
}

impl MasterApi {
    /// The base URL, without trailing slashes.
    pub closed spec fn base_view(&self) -> Seq<char> {
        self.base@
    }

    /// The shared secret.
    pub closed spec fn key_view(&self) -> Seq<char> {
        self.api_key@
    }

    /// A client of the master at `base` (trailing `/`s dropped) using `api_key`.
    pub fn new(base: &str, api_key: &str) -> (r: MasterApi)
        ensures
            r.base_view() == trim_end_char(base@, '/'),
            r.key_view() == api_key@,
    {
        MasterApi {
            base: trim_end_matches_char(base, '/').to_string(),
            api_key: api_key.to_string(),
        }
    }

    /// The URL of the snapshot document.
    pub fn snapshot_url(&self) -> (r: String)
        ensures
            r@ == self.base_view() + "/snapshot"@,
    {
        let mut u = self.base.clone();
        u.append("/snapshot");
        u
    }

    /// The `X-API-Key` header value to send, if a key is configured.
    pub fn api_key_header(&self) -> (r: Option<&str>)
        ensures
            r matches Some(k) ==> k@ == self.key_view() && k@.len() > 0,
            r is None <==> self.key_view().len() == 0,
    {
        if self.api_key.as_str().unicode_len() == 0 {
            None
        } else {
            Some(self.api_key.as_str())
        }
    }

    /// Turn one fetch outcome into the snapshot to trade on, or an error text the engine
    /// logs before skipping the cycle (never trading on bad data): transport errors are
    /// scrubbed of the server address, and a snapshot of another schema is refused.
    pub fn accept(&self, outcome: FetchOutcome) -> (r: Result<MasterSnapshot, String>)
        ensures
            result_view(r) == outcome_result(self.base_view(), outcome),
    {
        proof {
            reveal_strlit("unreachable (");
            reveal_strlit(")");
            reveal_strlit("read failed: ");
            reveal_strlit("bad data: ");
            reveal_strlit("version mismatch (remote ");
            reveal_strlit(", local ");
        }
        match outcome {
            FetchOutcome::Unreachable(e) => {
                let mut m = "unreachable (".to_string();
                let s = scrub_url(e.as_str(), self.base.as_str());
                m.append(s.as_str());
                m.append(")");
                Err(m)
            },
            FetchOutcome::ReadFailed(e) => {
                let mut m = "read failed: ".to_string();
                m.append(e.as_str());
                Err(m)
            },
            FetchOutcome::BadData(e) => {
                let mut m = "bad data: ".to_string();
                m.append(e.as_str());
                Err(m)
            },
            FetchOutcome::Parsed(s) => {
                if s.schema == PROTOCOL_SCHEMA {
                    Ok(s)
                } else {
                    let mut m = "version mismatch (remote ".to_string();
                    push_decimal(&mut m, s.schema as u64);
                    m.append(", local ");
                    push_decimal(&mut m, PROTOCOL_SCHEMA as u64);
                    m.append(")");
                    Err(m)
                }
            },
        }
    }
}

/// A snapshot is traded on only when its schema is this build's schema.
pub proof fn law_only_current_schema_accepted(base: Seq<char>, o: FetchOutcome)
    ensures
        outcome_result(base, o) is Ok ==> (o matches FetchOutcome::Parsed(s) && s.schema
            == PROTOCOL_SCHEMA),
{
}

/// A snapshot whose position count fell by more than half since the previous poll: set
/// aside as a likely partial feed.
pub open spec fn collapsed(prev: Option<usize>, now: usize) -> bool {
    match prev {
        Some(p) => 2 * now < p,
        None => false,
    }
}

/// Whether this poll's snapshot is set aside as a partial feed, given the position count
/// of the previous poll (which the caller replaces with this one's either way, so a
/// genuine reduction that persists is applied on the next poll).
pub fn feed_collapsed(prev: Option<usize>, now: usize) -> (r: bool)
    ensures
        r == collapsed(prev, now),
{
    match prev {
        Some(p) => (now as u128) * 2 < p as u128,
        None => false,
    }
}

/// A reduction that persists for a second poll is never set aside.
pub proof fn law_sustained_reduction_is_applied(n: usize)
    ensures
        !collapsed(Some(n), n),
{
}

} // verus!
