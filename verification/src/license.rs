//! License check. The client verifies its IBKR account against a licensing endpoint
//! before trading, and re-checks periodically.

use vstd::prelude::*;

verus! {

/// The licensing endpoint.
pub const LICENSE_URL: &'static str = "https://portal.neroai.com/api/licenses/equities";

/// The outcome of a license check.
#[derive(Debug, Clone, Copy, PartialEq, Eq, Structural)]
pub enum LicenseStatus {
    /// Account is in the licensed set.
    Authorized,
    /// Endpoint responded, but this account is not licensed.
    Denied,
    /// Could not reach/parse the endpoint (network/format) — verification inconclusive.
    Unknown,
}

/// One entry of the licensed list, as the endpoint may write it: a bare string, or an
/// object with a `key` and/or `account` field (a field that is not a string is absent).
#[derive(Debug)]
pub struct LicenseEntry {
    pub text: Option<String>,
    pub key: Option<String>,
    pub account: Option<String>,
}

/// What the endpoint answered.
#[derive(Debug)]
pub enum LicenseReply {
    /// Unreachable, unreadable, or not JSON.
    Unavailable,
    /// JSON, but neither `{"licenses": [...]}` nor a bare array.
    NoList,
    /// The entries of the licensed list.
    Listed(Vec<LicenseEntry>),
}

pub open spec fn opt_text(o: Option<String>) -> Option<Seq<char>> {
    match o {
        Some(s) => Some(s@),
        None => None,
    }
}

/// The account an entry names: its string, else its `key`, else its `account`, else
/// nothing (empty).
pub open spec fn entry_name(e: LicenseEntry) -> Seq<char> {
    match opt_text(e.text) {
        Some(s) => s,
        None => match opt_text(e.key) {
            Some(k) => k,
            None => match opt_text(e.account) {
                Some(a) => a,
                None => Seq::empty(),
            },
        },
    }
}

/// The license status of `account` given the endpoint's reply: only a list is conclusive.
pub open spec fn license_spec(reply: LicenseReply, account: Seq<char>) -> LicenseStatus {
    match reply {
        LicenseReply::Unavailable => LicenseStatus::Unknown,
        LicenseReply::NoList => LicenseStatus::Unknown,
        LicenseReply::Listed(es) => if exists|i: int| 0 <= i < es@.len() && entry_name(#[trigger] es@[i]) == account {
            LicenseStatus::Authorized
        } else {
            LicenseStatus::Denied
        },
    }
}

fn entry_names(e: &LicenseEntry) -> (r: &str)
    ensures
        r@ == entry_name(*e),
{
    match &e.text {
        Some(s) => s.as_str(),
        None => match &e.key {
            Some(k) => k.as_str(),
            None => match &e.account {
                Some(a) => a.as_str(),
                None => {
                    proof {
                        reveal_strlit("");
                    }
                    ""
                },
            },
        },
    }
}

/// Decide the license status of `account` from the endpoint's reply: authorized exactly
/// when some entry names it, denied when a list names it not; a reply that is unreachable,
/// not JSON, or JSON in neither listed format is inconclusive.
pub fn license_status(reply: &LicenseReply, account: &str) -> (r: LicenseStatus)
    ensures
        r == license_spec(*reply, account@),
{
    match reply {
        LicenseReply::Unavailable => LicenseStatus::Unknown,
        LicenseReply::NoList => LicenseStatus::Unknown,
        LicenseReply::Listed(es) => {
            let mut i: usize = 0;
            while i < es.len()
                invariant
                    i <= es@.len(),
                    *reply matches LicenseReply::Listed(v) && v@ == es@,
                    forall|j: int| 0 <= j < i ==> entry_name(#[trigger] es@[j]) != account@,
                decreases es.len() - i,
            {
                if crate::text::str_eq(entry_names(&es[i]), account) {
                    proof {
                        assert(entry_name(es@[i as int]) == account@);
                    }
                    return LicenseStatus::Authorized;
                }
                i = i + 1;
            }
            LicenseStatus::Denied
        },
    }
}

/// Whether a session may (keep) trading after a license check: an authorized account
/// may, a denied one may not, and an inconclusive check (endpoint unreachable) does not
/// abandon an account that was already verified earlier.
pub open spec fn may_trade_spec(status: LicenseStatus, verified_earlier: bool) -> bool {
    match status {
        LicenseStatus::Authorized => true,
        LicenseStatus::Denied => false,
        LicenseStatus::Unknown => verified_earlier,
    }
}

/// Whether trading may go on after a license check.
pub fn may_trade(status: LicenseStatus, verified_earlier: bool) -> (r: bool)
    ensures
        r == may_trade_spec(status, verified_earlier),
{
    match status {
        LicenseStatus::Authorized => true,
        LicenseStatus::Denied => false,
        LicenseStatus::Unknown => verified_earlier,
    }
}

/// A revoked license always stops trading.
pub proof fn law_denied_never_trades(verified_earlier: bool)
    ensures
        !may_trade_spec(LicenseStatus::Denied, verified_earlier),
{
}

} // verus!
