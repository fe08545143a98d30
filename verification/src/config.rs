//! Stored tunnel definitions and their translation into the runtime
//! interface configuration, plus the status record handed back to callers.
//!
//! A stored definition keeps its fields as entered: the listen port as
//! text, allowed ranges as comma-separated lists, and — for definitions
//! written by older versions — a single flat peer in dedicated fields
//! beside the peer list. Translation parses the port, splits the ranges,
//! and prefers the peer list over the flat fields.

use vstd::prelude::*;

use crate::text::all_dec_digits;
use crate::text::dec_val;
use crate::text::split_char;
use crate::text::split_spec;
use crate::text::trim_spec;
use crate::text::trim_str;
use crate::uapi::InterfaceConfig;
use crate::uapi::PeerConfig;

verus! {

/// One peer of a stored tunnel definition.
#[derive(Clone, Debug)]
pub struct TunnelPeerConfig {
    pub public_key: String,
    pub client_private_key: Option<String>,
    pub preshared_key: Option<String>,
    pub endpoint: Option<String>,
    pub address: Option<String>,
    pub allowed_ips: String,
    pub persistent_keepalive: Option<u16>,
}

/// A stored tunnel definition, as the persistence collaborator hands it
/// over. The flat single-peer fields after `peers` serve definitions from
/// older versions and are read only when `peers` is empty.
#[derive(Clone, Debug)]
pub struct TunnelConfig {
    pub id: String,
    pub name: String,
    pub mode: String,
    pub private_key: String,
    pub address: String,
    pub listen_port: String,
    pub dns: String,
    pub mtu: String,
    pub server_endpoint: String,
    pub server_allowed_ips: String,
    pub peers: Vec<TunnelPeerConfig>,
    pub peer_public_key: String,
    pub preshared_key: String,
    pub endpoint: String,
    pub allowed_ips: String,
    pub persistent_keepalive: String,
    pub created_at: i64,
}

/// The status record callers poll.
#[derive(Clone, Debug)]
pub struct TunnelStatus {
    pub id: String,
    pub name: String,
    pub status: String,
    pub address: Option<String>,
    pub endpoint: Option<String>,
    pub listen_port: Option<u16>,
    pub tx_bytes: u64,
    pub rx_bytes: u64,
    pub last_handshake: Option<i64>,
    pub public_key: Option<String>,
    pub allowed_ips: Option<String>,
    pub mode: String,
    pub server_endpoint: String,
    pub server_allowed_ips: String,
    pub peers: Vec<TunnelPeerConfig>,
}

// ---------------------------------------------------------------------------
// Field parsing
// ---------------------------------------------------------------------------

/// A stored numeric field: absent when empty or unparsable.
pub open spec fn parsed_u16(s: Seq<char>) -> Option<u16> {
    if s.len() > 0 && all_dec_digits(s) && dec_val(s) <= u16::MAX {
        Option::Some(dec_val(s) as u16)
    } else {
        Option::None
    }
}

fn parse_u16_field(s: &str) -> (r: Option<u16>)
    ensures
        r == parsed_u16(s@),
{
    crate::text::parse_u16_dec(s)
}

/// The comma-separated entries of an allowed-ranges field, each trimmed,
/// empty entries dropped.
pub open spec fn trimmed_nonempty(parts: Seq<Seq<char>>) -> Seq<Seq<char>>
    decreases parts.len(),
{
    if parts.len() == 0 {
        Seq::<Seq<char>>::empty()
    } else {
        let rest = trimmed_nonempty(parts.drop_last());
        if trim_spec(parts.last()).len() > 0 {
            rest.push(trim_spec(parts.last()))
        } else {
            rest
        }
    }
}

pub open spec fn split_ranges(s: Seq<char>) -> Seq<Seq<char>> {
    trimmed_nonempty(split_spec(s, ','))
}

/// The same split without dropping empty entries, as definitions from
/// older versions were read.
pub open spec fn trimmed_all(parts: Seq<Seq<char>>) -> Seq<Seq<char>>
    decreases parts.len(),
{
    if parts.len() == 0 {
        Seq::<Seq<char>>::empty()
    } else {
        trimmed_all(parts.drop_last()).push(trim_spec(parts.last()))
    }
}

pub open spec fn split_ranges_legacy(s: Seq<char>) -> Seq<Seq<char>> {
    if s.len() == 0 {
        Seq::<Seq<char>>::empty()
    } else {
        trimmed_all(split_spec(s, ','))
    }
}

proof fn lemma_trimmed_nonempty_step(parts: Seq<Seq<char>>, i: int)
    requires
        0 <= i < parts.len(),
    ensures
        trimmed_nonempty(parts.subrange(0, i + 1)) == (if trim_spec(parts[i]).len() > 0 {
            trimmed_nonempty(parts.subrange(0, i)).push(trim_spec(parts[i]))
        } else {
            trimmed_nonempty(parts.subrange(0, i))
        }),
{
    let t = parts.subrange(0, i + 1);
    assert(t.drop_last() =~= parts.subrange(0, i));
    assert(t.last() == parts[i]);
}

proof fn lemma_trimmed_all_step(parts: Seq<Seq<char>>, i: int)
    requires
        0 <= i < parts.len(),
    ensures
        trimmed_all(parts.subrange(0, i + 1)) == trimmed_all(parts.subrange(0, i)).push(
            trim_spec(parts[i]),
        ),
{
    let t = parts.subrange(0, i + 1);
    assert(t.drop_last() =~= parts.subrange(0, i));
    assert(t.last() == parts[i]);
}

/// Splits an allowed-ranges field into trimmed entries, dropping empties.
#[verifier::loop_isolation(false)]
pub fn split_allowed_ranges(s: &str) -> (r: Vec<String>)
    ensures
        r@.len() == split_ranges(s@).len(),
        forall|i: int| 0 <= i < r@.len() ==> r@[i]@ == split_ranges(s@)[i],
{
    let parts = split_char(s, ',');
    let ghost pv = split_spec(s@, ',');
    let mut out: Vec<String> = Vec::new();
    let n = parts.len();
    let mut i: usize = 0;
    proof {
        assert(pv.subrange(0, 0) =~= Seq::<Seq<char>>::empty());
    }
    while i < n
        invariant
            0 <= i <= n,
            out@.len() == trimmed_nonempty(pv.subrange(0, i as int)).len(),
            forall|j: int|
                0 <= j < out@.len() ==> out@[j]@ == trimmed_nonempty(pv.subrange(0, i as int))[j],
        decreases n - i,
    {
        proof {
            lemma_trimmed_nonempty_step(pv, i as int);
        }
        let t = trim_str(parts[i].as_str());
        if !t.as_str().is_empty() {
            out.push(t);
        }
        i += 1;
    }
    proof {
        assert(pv.subrange(0, n as int) =~= pv);
    }
    out
}

/// Splits an allowed-ranges field the way older definitions were read:
/// trimmed, empties kept, and an empty field meaning no entries at all.
#[verifier::loop_isolation(false)]
pub fn split_allowed_ranges_legacy(s: &str) -> (r: Vec<String>)
    ensures
        r@.len() == split_ranges_legacy(s@).len(),
        forall|i: int| 0 <= i < r@.len() ==> r@[i]@ == split_ranges_legacy(s@)[i],
{
    if s.is_empty() {
        return Vec::new();
    }
    let parts = split_char(s, ',');
    let ghost pv = split_spec(s@, ',');
    let mut out: Vec<String> = Vec::new();
    let n = parts.len();
    let mut i: usize = 0;
    proof {
        assert(pv.subrange(0, 0) =~= Seq::<Seq<char>>::empty());
    }
    while i < n
        invariant
            0 <= i <= n,
            out@.len() == trimmed_all(pv.subrange(0, i as int)).len(),
            forall|j: int|
                0 <= j < out@.len() ==> out@[j]@ == trimmed_all(pv.subrange(0, i as int))[j],
        decreases n - i,
    {
        proof {
            lemma_trimmed_all_step(pv, i as int);
        }
        out.push(trim_str(parts[i].as_str()));
        i += 1;
    }
    proof {
        assert(pv.subrange(0, n as int) =~= pv);
    }
    out
}

// ---------------------------------------------------------------------------
// Building the runtime configuration
// ---------------------------------------------------------------------------

/// Two optional strings with equal contents.
pub open spec fn opt_str_eq(a: Option<String>, b: Option<String>) -> bool {
    match (a, b) {
        (Option::None, Option::None) => true,
        (Option::Some(x), Option::Some(y)) => x@ == y@,
        _ => false,
    }
}

/// A runtime peer faithfully built from a stored peer.
pub open spec fn peer_built(pc: PeerConfig, tp: TunnelPeerConfig) -> bool {
    &&& pc.public_key@ == tp.public_key@
    &&& opt_str_eq(pc.endpoint, tp.endpoint)
    &&& pc.allowed_ips@.len() == split_ranges(tp.allowed_ips@).len()
    &&& forall|i: int|
        0 <= i < pc.allowed_ips@.len() ==> pc.allowed_ips@[i]@ == split_ranges(tp.allowed_ips@)[i]
    &&& pc.persistent_keepalive == tp.persistent_keepalive
    &&& opt_str_eq(pc.preshared_key, tp.preshared_key)
}

/// A runtime peer faithfully built from the flat single-peer fields.
pub open spec fn legacy_peer_built(pc: PeerConfig, tc: TunnelConfig) -> bool {
    &&& pc.public_key@ == tc.peer_public_key@
    &&& (match pc.endpoint {
        Option::Some(e) => tc.endpoint@.len() > 0 && e@ == tc.endpoint@,
        Option::None => tc.endpoint@.len() == 0,
    })
    &&& pc.allowed_ips@.len() == split_ranges_legacy(tc.allowed_ips@).len()
    &&& forall|i: int|
        0 <= i < pc.allowed_ips@.len() ==> pc.allowed_ips@[i]@ == split_ranges_legacy(
            tc.allowed_ips@,
        )[i]
    &&& pc.persistent_keepalive == (if tc.persistent_keepalive@.len() == 0 {
        Option::<u16>::None
    } else {
        parsed_u16(tc.persistent_keepalive@)
    })
    &&& (match pc.preshared_key {
        Option::Some(k) => tc.preshared_key@.len() > 0 && k@ == tc.preshared_key@,
        Option::None => tc.preshared_key@.len() == 0,
    })
}

fn clone_opt_string(o: &Option<String>) -> (r: Option<String>)
    ensures
        opt_str_eq(r, *o),
{
    match o {
        Some(s) => Some(s.clone()),
        None => None,
    }
}

/// Builds the engine-agnostic runtime configuration from a stored
/// definition: the peer list when present, otherwise the flat single-peer
/// fields of older definitions, otherwise no peers at all. The routing
/// mark is never set here and peers always replace the previous set.
#[verifier::loop_isolation(false)]
pub fn build_interface_config(tc: &TunnelConfig) -> (r: InterfaceConfig)
    ensures
        r.private_key@ == tc.private_key@,
        r.listen_port == (if tc.listen_port@.len() == 0 {
            Option::<u16>::None
        } else {
            parsed_u16(tc.listen_port@)
        }),
        r.fwmark is None,
        r.replace_peers == true,
        tc.peers@.len() > 0 ==> r.peers@.len() == tc.peers@.len() && forall|i: int|
            0 <= i < r.peers@.len() ==> peer_built(#[trigger] r.peers@[i], tc.peers@[i]),
        tc.peers@.len() == 0 && tc.peer_public_key@.len() > 0 ==> r.peers@.len() == 1
            && legacy_peer_built(r.peers@[0], *tc),
        tc.peers@.len() == 0 && tc.peer_public_key@.len() == 0 ==> r.peers@.len() == 0,
{
    let listen_port: Option<u16> = if tc.listen_port.as_str().is_empty() {
        None
    } else {
        parse_u16_field(tc.listen_port.as_str())
    };
    let mut peers: Vec<PeerConfig> = Vec::new();
    if tc.peers.len() > 0 {
        let n = tc.peers.len();
        let mut i: usize = 0;
        while i < n
            invariant
                0 <= i <= n,
                peers@.len() == i,
                forall|j: int|
                    0 <= j < i ==> peer_built(#[trigger] peers@[j], tc.peers@[j]),
            decreases n - i,
        {
            let tp = &tc.peers[i];
            let pc = PeerConfig {
                public_key: tp.public_key.clone(),
                endpoint: clone_opt_string(&tp.endpoint),
                allowed_ips: split_allowed_ranges(tp.allowed_ips.as_str()),
                persistent_keepalive: tp.persistent_keepalive,
                preshared_key: clone_opt_string(&tp.preshared_key),
            };
            peers.push(pc);
            i += 1;
        }
    } else if !tc.peer_public_key.as_str().is_empty() {
        let keepalive: Option<u16> = if tc.persistent_keepalive.as_str().is_empty() {
            None
        } else {
            parse_u16_field(tc.persistent_keepalive.as_str())
        };
        let preshared_key: Option<String> = if tc.preshared_key.as_str().is_empty() {
            None
        } else {
            Some(tc.preshared_key.clone())
        };
        let endpoint: Option<String> = if tc.endpoint.as_str().is_empty() {
            None
        } else {
            Some(tc.endpoint.clone())
        };
        let pc = PeerConfig {
            public_key: tc.peer_public_key.clone(),
            endpoint,
            allowed_ips: split_allowed_ranges_legacy(tc.allowed_ips.as_str()),
            persistent_keepalive: keepalive,
            preshared_key,
        };
        peers.push(pc);
    }
    InterfaceConfig {
        private_key: tc.private_key.clone(),
        listen_port,
        fwmark: None,
        replace_peers: true,
        peers,
    }
}

// ---------------------------------------------------------------------------
// Route collection
// ---------------------------------------------------------------------------

pub open spec fn nonempty_views(items: Seq<String>) -> Seq<Seq<char>>
    decreases items.len(),
{
    if items.len() == 0 {
        Seq::<Seq<char>>::empty()
    } else {
        let rest = nonempty_views(items.drop_last());
        if items.last()@.len() > 0 {
            rest.push(items.last()@)
        } else {
            rest
        }
    }
}

/// Every non-empty allowed range of every peer, in order: the routes to
/// install for the tunnel.
pub open spec fn routes_spec(peers: Seq<PeerConfig>) -> Seq<Seq<char>>
    decreases peers.len(),
{
    if peers.len() == 0 {
        Seq::<Seq<char>>::empty()
    } else {
        routes_spec(peers.drop_last()) + nonempty_views(peers.last().allowed_ips@)
    }
}

proof fn lemma_routes_step(peers: Seq<PeerConfig>, i: int)
    requires
        0 <= i < peers.len(),
    ensures
        routes_spec(peers.subrange(0, i + 1)) == routes_spec(peers.subrange(0, i))
            + nonempty_views(peers[i].allowed_ips@),
{
    let t = peers.subrange(0, i + 1);
    assert(t.drop_last() =~= peers.subrange(0, i));
    assert(t.last() == peers[i]);
}

proof fn lemma_nonempty_views_step(items: Seq<String>, j: int)
    requires
        0 <= j < items.len(),
    ensures
        nonempty_views(items.subrange(0, j + 1)) == (if items[j]@.len() > 0 {
            nonempty_views(items.subrange(0, j)).push(items[j]@)
        } else {
            nonempty_views(items.subrange(0, j))
        }),
{
    let t = items.subrange(0, j + 1);
    assert(t.drop_last() =~= items.subrange(0, j));
    assert(t.last() == items[j]);
}

/// Collects the routes a tunnel needs: each peer's non-empty allowed
/// ranges, in configuration order.
#[verifier::loop_isolation(false)]
pub fn collect_routes(config: &InterfaceConfig) -> (r: Vec<String>)
    ensures
        r@.len() == routes_spec(config.peers@).len(),
        forall|i: int| 0 <= i < r@.len() ==> r@[i]@ == routes_spec(config.peers@)[i],
{
    let mut out: Vec<String> = Vec::new();
    let n = config.peers.len();
    let mut i: usize = 0;
    proof {
        assert(config.peers@.subrange(0, 0) =~= Seq::<PeerConfig>::empty());
    }
    while i < n
        invariant
            0 <= i <= n,
            out@.len() == routes_spec(config.peers@.subrange(0, i as int)).len(),
            forall|j: int|
                0 <= j < out@.len() ==> out@[j]@ == routes_spec(
                    config.peers@.subrange(0, i as int),
                )[j],
        decreases n - i,
    {
        proof {
            lemma_routes_step(config.peers@, i as int);
        }
        let ips = &config.peers[i].allowed_ips;
        let m = ips.len();
        let mut j: usize = 0;
        let ghost base = routes_spec(config.peers@.subrange(0, i as int));
        proof {
            assert(ips@.subrange(0, 0) =~= Seq::<String>::empty());
        }
        while j < m
            invariant
                0 <= j <= m,
                out@.len() == base.len() + nonempty_views(ips@.subrange(0, j as int)).len(),
                forall|k: int| 0 <= k < base.len() ==> out@[k]@ == base[k],
                forall|k: int|
                    0 <= k < nonempty_views(ips@.subrange(0, j as int)).len() ==> out@[
                        base.len() + k
                    ]@ == nonempty_views(ips@.subrange(0, j as int))[k],
            decreases m - j,
        {
            proof {
                lemma_nonempty_views_step(ips@, j as int);
            }
            if !ips[j].as_str().is_empty() {
                out.push(ips[j].clone());
            }
            j += 1;
        }
        proof {
            assert(ips@.subrange(0, m as int) =~= ips@);
        }
        i += 1;
    }
    proof {
        assert(config.peers@.subrange(0, n as int) =~= config.peers@);
    }
    out
}

// ---------------------------------------------------------------------------
// Status derivation
// ---------------------------------------------------------------------------

fn clone_peer(p: &TunnelPeerConfig) -> (r: TunnelPeerConfig)
    ensures
        r.public_key@ == p.public_key@,
        opt_str_eq(r.client_private_key, p.client_private_key),
        opt_str_eq(r.preshared_key, p.preshared_key),
        opt_str_eq(r.endpoint, p.endpoint),
        opt_str_eq(r.address, p.address),
        r.allowed_ips@ == p.allowed_ips@,
        r.persistent_keepalive == p.persistent_keepalive,
{
    TunnelPeerConfig {
        public_key: p.public_key.clone(),
        client_private_key: clone_opt_string(&p.client_private_key),
        preshared_key: clone_opt_string(&p.preshared_key),
        endpoint: clone_opt_string(&p.endpoint),
        address: clone_opt_string(&p.address),
        allowed_ips: p.allowed_ips.clone(),
        persistent_keepalive: p.persistent_keepalive,
    }
}

/// The endpoint and allowed-ranges columns a status record shows: the
/// first listed peer's where a peer list exists, else the flat fields,
/// absent where those are empty.
pub open spec fn shown_endpoint(tc: TunnelConfig) -> Option<Seq<char>> {
    if tc.peers@.len() > 0 {
        match tc.peers@[0].endpoint {
            Option::Some(e) => Option::Some(e@),
            Option::None => Option::None,
        }
    } else if tc.endpoint@.len() > 0 {
        Option::Some(tc.endpoint@)
    } else {
        Option::None
    }
}

pub open spec fn shown_allowed_ips(tc: TunnelConfig) -> Option<Seq<char>> {
    if tc.peers@.len() > 0 {
        Option::Some(tc.peers@[0].allowed_ips@)
    } else if tc.allowed_ips@.len() > 0 {
        Option::Some(tc.allowed_ips@)
    } else {
        Option::None
    }
}

/// Assembles the status record for one tunnel from its stored definition,
/// the supervisor's view, the OS interface check, and the engine counters.
/// A tunnel reports `running` when it is either tracked in the table or
/// its interface exists at the OS level.
#[verifier::loop_isolation(false)]
pub fn derive_tunnel_status(
    tc: &TunnelConfig,
    in_process_list: bool,
    interface_exists: bool,
    tx_bytes: u64,
    rx_bytes: u64,
    last_handshake: Option<i64>,
    public_key: Option<String>,
) -> (r: TunnelStatus)
    ensures
        r.id@ == tc.id@,
        r.name@ == tc.name@,
        r.status@ == (if in_process_list || interface_exists {
            "running"@
        } else {
            "stopped"@
        }),
        r.address matches Some(a) && a@ == tc.address@,
        (match r.endpoint {
            Option::Some(e) => shown_endpoint(*tc) == Option::Some(e@),
            Option::None => shown_endpoint(*tc) is None,
        }),
        (match r.allowed_ips {
            Option::Some(a) => shown_allowed_ips(*tc) == Option::Some(a@),
            Option::None => shown_allowed_ips(*tc) is None,
        }),
        r.listen_port == parsed_u16(tc.listen_port@),
        r.tx_bytes == tx_bytes,
        r.rx_bytes == rx_bytes,
        r.last_handshake == last_handshake,
        r.public_key == public_key,
        r.mode@ == tc.mode@,
        r.server_endpoint@ == tc.server_endpoint@,
        r.server_allowed_ips@ == tc.server_allowed_ips@,
        r.peers@.len() == tc.peers@.len(),
        forall|i: int| 0 <= i < r.peers@.len() ==> r.peers@[i].public_key@ == #[trigger] tc.peers@[
            i
        ].public_key@,
{
    let running = in_process_list || interface_exists;
    let status: String = if running {
        "running".to_owned()
    } else {
        "stopped".to_owned()
    };
    let endpoint: Option<String> = if tc.peers.len() > 0 {
        clone_opt_string(&tc.peers[0].endpoint)
    } else if tc.endpoint.as_str().is_empty() {
        None
    } else {
        Some(tc.endpoint.clone())
    };
    let allowed_ips: Option<String> = if tc.peers.len() > 0 {
        Some(tc.peers[0].allowed_ips.clone())
    } else if tc.allowed_ips.as_str().is_empty() {
        None
    } else {
        Some(tc.allowed_ips.clone())
    };
    let mut peers: Vec<TunnelPeerConfig> = Vec::new();
    let n = tc.peers.len();
    let mut i: usize = 0;
    while i < n
        invariant
            0 <= i <= n,
            peers@.len() == i,
            forall|j: int|
                0 <= j < i ==> peers@[j].public_key@ == #[trigger] tc.peers@[j].public_key@,
        decreases n - i,
    {
        peers.push(clone_peer(&tc.peers[i]));
        i += 1;
    }
    TunnelStatus {
        id: tc.id.clone(),
        name: tc.name.clone(),
        status,
        address: Some(tc.address.clone()),
        endpoint,
        listen_port: parse_u16_field(tc.listen_port.as_str()),
        tx_bytes,
        rx_bytes,
        last_handshake,
        public_key,
        allowed_ips,
        mode: tc.mode.clone(),
        server_endpoint: tc.server_endpoint.clone(),
        server_allowed_ips: tc.server_allowed_ips.clone(),
        peers,
    }
}

// ---------------------------------------------------------------------------
// Assembling the full status list
// ---------------------------------------------------------------------------

/// Everything observed about one stored tunnel when the list is assembled:
/// its definition, whether the supervisor tracks it, whether its interface
/// exists, and the engine counters (zero when it is not running).
pub struct TunnelObservation {
    pub config: TunnelConfig,
    pub in_process_list: bool,
    pub interface_exists: bool,
    pub tx_bytes: u64,
    pub rx_bytes: u64,
    pub last_handshake: Option<i64>,
}

/// `st` is the status record that `derive_tunnel_status` fixes for this
/// observation; the list view never exposes a public key.
pub open spec fn status_of_observation(st: TunnelStatus, ob: TunnelObservation) -> bool {
    &&& st.id@ == ob.config.id@
    &&& st.name@ == ob.config.name@
    &&& st.status@ == (if ob.in_process_list || ob.interface_exists {
        "running"@
    } else {
        "stopped"@
    })
    &&& (st.address matches Option::Some(a) && a@ == ob.config.address@)
    &&& (match st.endpoint {
        Option::Some(e) => shown_endpoint(ob.config) == Option::Some(e@),
        Option::None => shown_endpoint(ob.config) is None,
    })
    &&& (match st.allowed_ips {
        Option::Some(a) => shown_allowed_ips(ob.config) == Option::Some(a@),
        Option::None => shown_allowed_ips(ob.config) is None,
    })
    &&& st.listen_port == parsed_u16(ob.config.listen_port@)
    &&& st.tx_bytes == ob.tx_bytes
    &&& st.rx_bytes == ob.rx_bytes
    &&& st.last_handshake == ob.last_handshake
    &&& st.public_key is None
    &&& st.mode@ == ob.config.mode@
    &&& st.server_endpoint@ == ob.config.server_endpoint@
    &&& st.server_allowed_ips@ == ob.config.server_allowed_ips@
    &&& st.peers@.len() == ob.config.peers@.len()
    &&& forall|i: int|
        0 <= i < st.peers@.len() ==> st.peers@[i].public_key@ == #[trigger] ob.config.peers@[
            i
        ].public_key@
}

/// The list order callers see: descending by tunnel id.
pub open spec fn sorted_by_id_desc(s: Seq<TunnelStatus>) -> bool {
    forall|i: int, j: int|
        0 <= i < j < s.len() ==> crate::text::lex_le(#[trigger] s[j].id@, #[trigger] s[i].id@)
}

/// Sorts status records descending by id; the result holds exactly the
/// input records.
#[verifier::loop_isolation(false)]
fn sort_statuses_by_id_desc(list: Vec<TunnelStatus>) -> (r: Vec<TunnelStatus>)
    ensures
        r@.len() == list@.len(),
        sorted_by_id_desc(r@),
        r@.to_multiset() == list@.to_multiset(),
{
    broadcast use vstd::seq_lib::group_to_multiset_ensures;

    let mut rest = list;
    let mut out: Vec<TunnelStatus> = Vec::new();
    let ghost orig = rest@;
    proof {
        assert(out@.to_multiset().add(rest@.to_multiset()) =~= orig.to_multiset());
    }
    while rest.len() > 0
        invariant
            out@.len() + rest@.len() == orig.len(),
            sorted_by_id_desc(out@),
            out@.to_multiset().add(rest@.to_multiset()) == orig.to_multiset(),
            forall|i: int, j: int|
                0 <= i < out@.len() && 0 <= j < rest@.len() ==> crate::text::lex_le(
                    #[trigger] rest@[j].id@,
                    #[trigger] out@[i].id@,
                ),
        decreases rest@.len(),
    {
        let mut best: usize = 0;
        let mut k: usize = 1;
        proof {
            crate::text::lemma_lex_total(rest@[0].id@, rest@[0].id@);
        }
        while k < rest.len()
            invariant
                0 <= best < k <= rest@.len(),
                forall|j: int|
                    0 <= j < k ==> crate::text::lex_le(
                        #[trigger] rest@[j].id@,
                        rest@[best as int].id@,
                    ),
            decreases rest@.len() - k,
        {
            if !crate::text::str_lex_le(rest[k].id.as_str(), rest[best].id.as_str()) {
                proof {
                    crate::text::lemma_lex_total(rest@[k as int].id@, rest@[best as int].id@);
                    assert forall|j: int|
                        0 <= j < k implies crate::text::lex_le(
                        #[trigger] rest@[j].id@,
                        rest@[k as int].id@,
                    ) by {
                        crate::text::lemma_lex_trans(
                            rest@[j].id@,
                            rest@[best as int].id@,
                            rest@[k as int].id@,
                        );
                    }
                }
                best = k;
            }
            proof {
                crate::text::lemma_lex_total(rest@[k as int].id@, rest@[k as int].id@);
            }
            k += 1;
        }
        let ghost old_out = out@;
        let ghost old_rest = rest@;
        let v = rest.remove(best);
        out.push(v);
        proof {
            assert(out@.to_multiset() =~= old_out.to_multiset().insert(v));
            assert(out@.to_multiset().add(rest@.to_multiset()) =~= orig.to_multiset());
            assert forall|i: int, j: int|
                0 <= i < j < out@.len() implies crate::text::lex_le(
                #[trigger] out@[j].id@,
                #[trigger] out@[i].id@,
            ) by {
                if j < out@.len() - 1 {
                    assert(out@[i] == old_out[i] && out@[j] == old_out[j]);
                } else {
                    assert(out@[i] == old_out[i]);
                    assert(out@[j] == v);
                    assert(v == old_rest[best as int]);
                }
            }
            assert forall|i: int, j: int|
                0 <= i < out@.len() && 0 <= j < rest@.len() implies crate::text::lex_le(
                #[trigger] rest@[j].id@,
                #[trigger] out@[i].id@,
            ) by {
                let oj = if j < best as int {
                    j
                } else {
                    j + 1
                };
                assert(rest@[j] == old_rest[oj]);
                if i < out@.len() - 1 {
                    assert(out@[i] == old_out[i]);
                } else {
                    assert(out@[i] == old_rest[best as int]);
                }
            }
        }
    }
    proof {
        assert(rest@.to_multiset().len() == 0);
        assert(out@.to_multiset() =~= orig.to_multiset());
    }
    out
}

/// Assembles the list of status records for all stored tunnels: one record
/// per observation, derived as `derive_tunnel_status` does and without
/// exposing public keys, ordered descending by tunnel id.
#[verifier::loop_isolation(false)]
pub fn assemble_tunnel_list(observations: Vec<TunnelObservation>) -> (r: Vec<TunnelStatus>)
    ensures
        r@.len() == observations@.len(),
        sorted_by_id_desc(r@),
        exists|mid: Seq<TunnelStatus>|
            #[trigger] mid.to_multiset() == r@.to_multiset() && mid.len() == observations@.len()
                && (forall|i: int|
                0 <= i < mid.len() ==> status_of_observation(
                    #[trigger] mid[i],
                    observations@[i],
                )),
{
    let mut derived: Vec<TunnelStatus> = Vec::new();
    let n = observations.len();
    let mut i: usize = 0;
    while i < n
        invariant
            0 <= i <= n,
            derived@.len() == i,
            forall|j: int|
                0 <= j < i ==> status_of_observation(#[trigger] derived@[j], observations@[j]),
        decreases n - i,
    {
        let ob = &observations[i];
        let st = derive_tunnel_status(
            &ob.config,
            ob.in_process_list,
            ob.interface_exists,
            ob.tx_bytes,
            ob.rx_bytes,
            ob.last_handshake,
            None,
        );
        derived.push(st);
        i += 1;
    }
    let ghost mid = derived@;
    let r = sort_statuses_by_id_desc(derived);
    proof {
        assert(mid.to_multiset() == r@.to_multiset());
    }
    r
}

} // verus!
