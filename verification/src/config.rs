//! Client and master configuration: built-in defaults, and the values the environment
//! supplies in their place.

use vstd::prelude::*;

use crate::master_state::IbMode;
use crate::numparse::{parse_int, parse_uint, parse_signed, parse_unsigned};
use crate::text::{lowercase, matches_at, to_lowercase};
use vstd::string::StringSliceAdditionalSpecFns;

verus! {

/// Client settings.
#[derive(Debug)]
pub struct ClientConfig {
    /// Base URL of the master HTTP API, e.g. `http://1.2.3.4:5001`.
    pub master_url: String,
    /// Optional shared secret matching the master's `PAX_API_KEY`.
    pub master_api_key: String,
    /// IB Gateway / TWS host for this client.
    pub ib_host: String,
    /// Live port (IB Gateway 4001 / TWS 7496).
    pub ib_port_live: u16,
    /// Paper port (IB Gateway 4002 / TWS 7497).
    pub ib_port_paper: u16,
    /// Seconds between reconciliation passes.
    pub sync_interval_secs: u64,
    /// After placing an order for a symbol, suppress further orders for it for this
    /// many seconds so fills can settle (prevents duplicate submissions).
    pub order_cooldown_secs: u64,
}

impl Clone for ClientConfig {
    fn clone(&self) -> (r: Self)
        ensures
            r == *self,
    {
        ClientConfig {
            master_url: self.master_url.clone(),
            master_api_key: self.master_api_key.clone(),
            ib_host: self.ib_host.clone(),
            ib_port_live: self.ib_port_live,
            ib_port_paper: self.ib_port_paper,
            sync_interval_secs: self.sync_interval_secs,
            order_cooldown_secs: self.order_cooldown_secs,
        }
    }
}

pub open spec fn loopback_host() -> Seq<char> {
    "127.0.0.1"@
}

impl Default for ClientConfig {
    fn default() -> (r: ClientConfig)
        ensures
            r.master_url@ == "http://127.0.0.1:5001"@,
            r.master_api_key@ == Seq::<char>::empty(),
            r.ib_host@ == loopback_host(),
            r.ib_port_live == 4001,
            r.ib_port_paper == 4002,
            r.sync_interval_secs == 2,
            r.order_cooldown_secs == 10,
    {
        ClientConfig {
            master_url: "http://127.0.0.1:5001".to_string(),
            master_api_key: String::new(),
            ib_host: "127.0.0.1".to_string(),
            ib_port_live: 4001,
            ib_port_paper: 4002,
            sync_interval_secs: 2,
            order_cooldown_secs: 10,
        }
    }
}

/// The text of a setting, or the default when it is unset.
pub open spec fn text_or(v: Option<Seq<char>>, d: Seq<char>) -> Seq<char> {
    match v {
        Some(s) => s,
        None => d,
    }
}

/// A numeric setting: its parsed value when it is set and parses, else the default.
pub open spec fn uint_or(v: Option<Seq<char>>, max: nat, d: nat) -> nat {
    match v {
        Some(s) => match parse_unsigned(s, max) {
            Some(x) => x,
            None => d,
        },
        None => d,
    }
}

/// The view of an optional string.
pub open spec fn opt_view(v: Option<String>) -> Option<Seq<char>> {
    match v {
        Some(s) => Some(s@),
        None => None,
    }
}

fn string_or(v: Option<String>, d: String) -> (r: String)
    ensures
        r@ == text_or(opt_view(v), d@),
{
    match v {
        Some(s) => s,
        None => d,
    }
}

fn u16_or(v: &Option<String>, d: u16) -> (r: u16)
    ensures
        r == uint_or(opt_view(*v), u16::MAX as nat, d as nat),
{
    match v {
        Some(s) => match parse_uint(s.as_str(), u16::MAX as u64) {
            Some(x) => x as u16,
            None => d,
        },
        None => d,
    }
}

fn u64_or(v: &Option<String>, d: u64) -> (r: u64)
    ensures
        r == uint_or(opt_view(*v), u64::MAX as nat, d as nat),
{
    match v {
        Some(s) => match parse_uint(s.as_str(), u64::MAX) {
            Some(x) => x,
            None => d,
        },
        None => d,
    }
}

impl ClientConfig {
    /// The configuration the environment gives: each variable (`PAX_MASTER_URL`,
    /// `PAX_API_KEY`, `PAX_IB_HOST`, `PAX_IB_PORT_LIVE`, `PAX_IB_PORT_PAPER`,
    /// `PAX_SYNC_SECS`, `PAX_ORDER_COOLDOWN_SECS`) replaces its default when it is set
    /// and, for numbers, parses.
    pub fn from_values(
        master_url: Option<String>,
        api_key: Option<String>,
        ib_host: Option<String>,
        port_live: Option<String>,
        port_paper: Option<String>,
        sync_secs: Option<String>,
        cooldown_secs: Option<String>,
    ) -> (r: ClientConfig)
        ensures
            r.master_url@ == text_or(opt_view(master_url), "http://127.0.0.1:5001"@),
            r.master_api_key@ == text_or(opt_view(api_key), Seq::empty()),
            r.ib_host@ == text_or(opt_view(ib_host), loopback_host()),
            r.ib_port_live == uint_or(opt_view(port_live), u16::MAX as nat, 4001),
            r.ib_port_paper == uint_or(opt_view(port_paper), u16::MAX as nat, 4002),
            r.sync_interval_secs == uint_or(opt_view(sync_secs), u64::MAX as nat, 2),
            r.order_cooldown_secs == uint_or(opt_view(cooldown_secs), u64::MAX as nat, 10),
    {
        let d = ClientConfig::default();
        let ib_port_live = u16_or(&port_live, d.ib_port_live);
        let ib_port_paper = u16_or(&port_paper, d.ib_port_paper);
        let sync_interval_secs = u64_or(&sync_secs, d.sync_interval_secs);
        let order_cooldown_secs = u64_or(&cooldown_secs, d.order_cooldown_secs);
        ClientConfig {
            master_url: string_or(master_url, d.master_url),
            master_api_key: string_or(api_key, d.master_api_key),
            ib_host: string_or(ib_host, d.ib_host),
            ib_port_live,
            ib_port_paper,
            sync_interval_secs,
            order_cooldown_secs,
        }
    }
}

// ── stable client id ─────────────────────────────────────────────────────────

/// FNV-1a (32-bit) of a byte string.
pub open spec fn fnv1a(bytes: Seq<u8>) -> u32
    decreases bytes.len(),
{
    if bytes.len() == 0 {
        0x811c9dc5u32
    } else {
        (fnv1a(bytes.drop_last()) ^ (bytes.last() as u32)).wrapping_mul(0x0100_0193u32)
    }
}

/// The host name a client id is derived from: `COMPUTERNAME`, else `HOSTNAME`, else
/// `pax-client`.
pub open spec fn id_host(computername: Option<Seq<u8>>, hostname: Option<Seq<u8>>) -> Seq<u8> {
    match computername {
        Some(c) => c,
        None => match hostname {
            Some(h) => h,
            None => Seq::new("pax-client"@.len(), |i: int| "pax-client"@[i] as u8),
        },
    }
}

/// The client id of a host name: `21 + fnv1a(host) % 978`.
pub open spec fn client_id_of(host: Seq<u8>) -> int {
    21 + (fnv1a(host) % 978) as int
}

/// Hash a host name into a client id (`21..=998`).
pub fn client_id_from_host(host: &[u8]) -> (r: i32)
    ensures
        r == client_id_of(host@),
{
    let mut hash: u32 = 0x811c9dc5;
    let mut i: usize = 0;
    while i < host.len()
        invariant
            i <= host@.len(),
            hash == fnv1a(host@.take(i as int)),
        decreases host.len() - i,
    {
        proof {
            assert(host@.take(i as int + 1).drop_last() =~= host@.take(i as int));
        }
        hash ^= host[i] as u32;
        hash = hash.wrapping_mul(0x0100_0193);
        i = i + 1;
    }
    proof {
        assert(host@.take(i as int) =~= host@);
    }
    21 + (hash % 978) as i32
}

/// Derive a stable clientId from the machine's host name (the `COMPUTERNAME` variable,
/// else `HOSTNAME`, else `pax-client`), so two client machines don't clash while staying
/// clear of the master's clientId 0.
pub fn stable_client_id(computername: Option<&str>, hostname: Option<&str>) -> (r: i32)
    ensures
        r == client_id_of(
            id_host(
                match computername {
                    Some(c) => Some(c.spec_bytes()),
                    None => None,
                },
                match hostname {
                    Some(h) => Some(h.spec_bytes()),
                    None => None,
                },
            ),
        ),
{
    let host: &str = match computername {
        Some(c) => c,
        None => match hostname {
            Some(h) => h,
            None => "pax-client",
        },
    };
    proof {
        reveal_strlit("pax-client");
        vstd::string::is_ascii_spec_bytes("pax-client");
        assert(vstd::string::is_ascii("pax-client"));
    }
    client_id_from_host(host.as_bytes())
}

/// Every derived client id lies in `21..=998`, clear of the master's clientId 0.
pub proof fn law_client_id_range(host: Seq<u8>)
    ensures
        21 <= client_id_of(host) <= 998,
{
}

// ── master ───────────────────────────────────────────────────────────────────

/// Master settings.
#[derive(Debug)]
pub struct MasterConfig {
    /// IB Gateway / TWS host. Use 127.0.0.1 (never `localhost` — TWS blocks IPv6).
    pub ib_host: String,
    /// Live port (IB Gateway 4001 / TWS 7496).
    pub ib_port_live: u16,
    /// Paper port (IB Gateway 4002 / TWS 7497).
    pub ib_port_paper: u16,
    /// Which mode to start in (toggleable at runtime in the GUI).
    pub start_mode: IbMode,
    /// clientId 0 sees all manually-placed orders/positions in the session.
    pub ib_client_id: i32,
    /// Address the HTTP API binds to.
    pub http_bind: String,
    /// Optional shared secret; when set, clients must send `X-API-Key`.
    pub api_key: String,
    /// How often to refresh balance + positions from IB (seconds).
    pub refresh_secs: u64,
}

impl Clone for MasterConfig {
    fn clone(&self) -> (r: Self)
        ensures
            r == *self,
    {
        MasterConfig {
            ib_host: self.ib_host.clone(),
            ib_port_live: self.ib_port_live,
            ib_port_paper: self.ib_port_paper,
            start_mode: self.start_mode,
            ib_client_id: self.ib_client_id,
            http_bind: self.http_bind.clone(),
            api_key: self.api_key.clone(),
            refresh_secs: self.refresh_secs,
        }
    }
}

impl Default for MasterConfig {
    fn default() -> (r: MasterConfig)
        ensures
            r.ib_host@ == loopback_host(),
            r.ib_port_live == 7496,
            r.ib_port_paper == 7497,
            r.start_mode == IbMode::Paper,
            r.ib_client_id == 0,
            r.http_bind@ == "0.0.0.0:5001"@,
            r.api_key@ == Seq::<char>::empty(),
            r.refresh_secs == 5,
    {
        MasterConfig {
            ib_host: "127.0.0.1".to_string(),
            // TWS ports by default (master typically runs against TWS). IB Gateway is
            // 4001 live / 4002 paper — change in the GUI or via env if needed.
            ib_port_live: 7496,
            ib_port_paper: 7497,
            start_mode: IbMode::Paper,
            ib_client_id: 0,
            http_bind: "0.0.0.0:5001".to_string(),
            api_key: String::new(),
            refresh_secs: 5,
        }
    }
}

/// The start mode a `PAX_IB_MODE` value selects: `live` (in any case) is live, anything
/// else (or nothing) is paper.
pub open spec fn mode_of(v: Option<Seq<char>>) -> IbMode {
    match v {
        Some(s) => if lowercase(s) == "live"@ {
            IbMode::Live
        } else {
            IbMode::Paper
        },
        None => if lowercase(Seq::empty()) == "live"@ {
            IbMode::Live
        } else {
            IbMode::Paper
        },
    }
}

/// The paper port: `PAX_IB_PORT_PAPER` when it parses, else the legacy single
/// `PAX_IB_PORT` when it parses, else the default.
pub open spec fn paper_port_of(paper: Option<Seq<char>>, legacy: Option<Seq<char>>) -> nat {
    let legacy_d = uint_or(legacy, u16::MAX as nat, 7497);
    uint_or(paper, u16::MAX as nat, legacy_d)
}

/// A signed numeric setting: its parsed value when set and in `i32` range, else the
/// default.
pub open spec fn int_or(v: Option<Seq<char>>, d: int) -> int {
    match v {
        Some(s) => match parse_signed(s, i32::MIN as int, i32::MAX as int) {
            Some(x) => x,
            None => d,
        },
        None => d,
    }
}

/// The start mode a lower-cased `PAX_IB_MODE` value names: `live`, else paper.
pub open spec fn mode_of_lower(t: Seq<char>) -> IbMode {
    if t == "live"@ {
        IbMode::Live
    } else {
        IbMode::Paper
    }
}

/// The start mode of a lower-cased `PAX_IB_MODE` value.
pub fn mode_from_lower(t: &str) -> (r: IbMode)
    ensures
        r == mode_of_lower(t@),
{
    proof {
        reveal_strlit("live");
    }
    let is_live = t.unicode_len() == 4 && matches_at(t, "live", 0);
    proof {
        if t@.len() == 4 {
            assert(t@.subrange(0, 4) =~= t@);
        }
        assert(is_live == (t@ == "live"@));
    }
    if is_live {
        IbMode::Live
    } else {
        IbMode::Paper
    }
}

impl MasterConfig {
    /// The configuration the environment gives: each variable (`PAX_IB_HOST`,
    /// `PAX_IB_PORT_LIVE`, `PAX_IB_PORT_PAPER` with the legacy `PAX_IB_PORT` behind it,
    /// `PAX_IB_MODE`, `PAX_IB_CLIENT_ID`, `PAX_HTTP_BIND`, `PAX_API_KEY`,
    /// `PAX_REFRESH_SECS`) replaces its default when it is set and, for numbers, parses.
    pub fn from_values(
        ib_host: Option<String>,
        port_live: Option<String>,
        port_paper: Option<String>,
        legacy_port: Option<String>,
        mode: Option<String>,
        client_id: Option<String>,
        http_bind: Option<String>,
        api_key: Option<String>,
        refresh_secs: Option<String>,
    ) -> (r: MasterConfig)
        ensures
            r.ib_host@ == text_or(opt_view(ib_host), loopback_host()),
            r.ib_port_live == uint_or(opt_view(port_live), u16::MAX as nat, 7496),
            r.ib_port_paper == paper_port_of(opt_view(port_paper), opt_view(legacy_port)),
            r.start_mode == mode_of(opt_view(mode)),
            r.ib_client_id == int_or(opt_view(client_id), 0),
            r.http_bind@ == text_or(opt_view(http_bind), "0.0.0.0:5001"@),
            r.api_key@ == text_or(opt_view(api_key), Seq::empty()),
            r.refresh_secs == uint_or(opt_view(refresh_secs), u64::MAX as nat, 5),
    {
        let d = MasterConfig::default();
        let legacy = u16_or(&legacy_port, d.ib_port_paper);
        let ib_port_paper = u16_or(&port_paper, legacy);
        proof {
            reveal_strlit("live");
            reveal_strlit("");
        }
        let mode_text: String = match &mode {
            Some(m) => {
                let t = to_lowercase(m.as_str());
                assert(t@ == lowercase(m@));
                t
            },
            None => {
                let t = to_lowercase("");
                assert(""@ =~= Seq::<char>::empty());
                assert(t@ == lowercase(Seq::empty()));
                t
            },
        };
        let ghost want: Seq<char> = match opt_view(mode) {
            Some(v) => lowercase(v),
            None => lowercase(Seq::empty()),
        };
        assert(mode_text@ == want);
        let start_mode = mode_from_lower(mode_text.as_str());
        let ib_client_id: i32 = match &client_id {
            Some(s) => match parse_int(s.as_str(), i32::MIN as i64, i32::MAX as i64) {
                Some(x) => x as i32,
                None => d.ib_client_id,
            },
            None => d.ib_client_id,
        };
        let ib_port_live = u16_or(&port_live, d.ib_port_live);
        let refresh = u64_or(&refresh_secs, d.refresh_secs);
        MasterConfig {
            ib_host: string_or(ib_host, d.ib_host),
            ib_port_live,
            ib_port_paper,
            start_mode,
            ib_client_id,
            http_bind: string_or(http_bind, d.http_bind),
            api_key: string_or(api_key, d.api_key),
            refresh_secs: refresh,
        }
    }
}

// ── IB port probing ──────────────────────────────────────────────────────────

/// The ports tried when connecting to IB: the selected mode's, then the other mode's,
/// then the TWS and Gateway defaults (7496, 7497, 4001, 4002), each once, in that order.
pub open spec fn probe_order(selected: u16, alternate: u16) -> Seq<u16> {
    dedup_ports(seq![selected, alternate, 7496u16, 7497u16, 4001u16, 4002u16])
}

/// `s` without repeats, the first occurrence of each kept.
pub open spec fn dedup_ports(s: Seq<u16>) -> Seq<u16>
    decreases s.len(),
{
    if s.len() == 0 {
        s
    } else {
        let d = dedup_ports(s.drop_last());
        if d.contains(s.last()) {
            d
        } else {
            d.push(s.last())
        }
    }
}

/// The ports to try, in order.
pub fn probe_ports(selected: u16, alternate: u16) -> (r: Vec<u16>)
    ensures
        r@ == probe_order(selected, alternate),
{
    let cands: [u16; 6] = [selected, alternate, 7496, 7497, 4001, 4002];
    let ghost all = seq![selected, alternate, 7496u16, 7497u16, 4001u16, 4002u16];
    proof {
        assert(cands@ =~= all);
    }
    let mut out: Vec<u16> = Vec::new();
    let mut i: usize = 0;
    while i < 6
        invariant
            i <= 6,
            cands@ == all,
            out@ == dedup_ports(all.take(i as int)),
        decreases 6 - i,
    {
        let p = cands[i];
        proof {
            assert(all.take(i + 1).drop_last() =~= all.take(i as int));
            assert(all.take(i + 1).last() == p);
        }
        let mut j: usize = 0;
        let mut seen = false;
        while j < out.len()
            invariant
                j <= out@.len(),
                seen == exists|k: int| 0 <= k < j && out@[k] == p,
            decreases out.len() - j,
        {
            if out[j] == p {
                seen = true;
            }
            j = j + 1;
        }
        proof {
            assert(seen == out@.contains(p));
        }
        if !seen {
            out.push(p);
        }
        i = i + 1;
    }
    proof {
        assert(all.take(6) =~= all);
    }
    out
}

} // verus!
