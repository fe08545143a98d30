//! The control-protocol codec: renders an interface configuration into the
//! engine's line-oriented `set` command, and the small `get` and
//! endpoint-update commands. Keys enter in base64 and leave as hex lines;
//! peer endpoints must already be resolved to concrete addresses.
//!
//! The command is built as a sequence of lines. A rendered command is the
//! lines joined with a newline each, so the final empty line terminates the
//! block with a blank line, as the protocol requires.

use vstd::prelude::*;

use crate::keys::base64_key_bytes;
use crate::keys::base64_to_hex;
use crate::keys::base64_decoded;
use crate::keys::base64_ok;
use crate::keys::KeyError;
use crate::keys::hex_of;
use crate::text::dec_of;
use crate::text::has_prefix;
use crate::text::trim_spec;
use crate::text::seq_contains_char;
use crate::text::str_contains_char;
use crate::text::u64_to_dec;

verus! {

// ---------------------------------------------------------------------------
// Configuration data
// ---------------------------------------------------------------------------

/// One peer of the runtime interface configuration. Keys are base64 text;
/// the endpoint may still be a hostname here and is resolved at push time.
#[derive(Clone, Debug)]
pub struct PeerConfig {
    pub public_key: String,
    pub endpoint: Option<String>,
    pub allowed_ips: Vec<String>,
    pub persistent_keepalive: Option<u16>,
    pub preshared_key: Option<String>,
}

/// The engine-agnostic runtime configuration of one interface.
#[derive(Clone, Debug)]
pub struct InterfaceConfig {
    pub private_key: String,
    pub listen_port: Option<u16>,
    pub fwmark: Option<u32>,
    pub replace_peers: bool,
    pub peers: Vec<PeerConfig>,
}

/// The decode outcome for one peer's key material: `None` where the base64
/// engine rejected the text or the field was absent or empty.
pub struct PeerKeyBytes {
    pub public_key: Option<Vec<u8>>,
    pub preshared_key: Option<Vec<u8>>,
}

/// The decode outcomes for a whole configuration, index-aligned with the
/// configuration's peers.
pub struct ConfigKeyBytes {
    pub private_key: Option<Vec<u8>>,
    pub peers: Vec<PeerKeyBytes>,
}

// ---------------------------------------------------------------------------
// Errors
// ---------------------------------------------------------------------------

/// What can be wrong with a single peer, in the order the codec checks.
#[derive(Debug, PartialEq, Eq, Structural)]
pub enum PeerFault {
    /// The public key did not decode to 32 bytes.
    BadPublicKey,
    /// The peer names an endpoint but no resolved address was supplied.
    UnresolvedEndpoint,
    /// A value destined for a line contains a newline and would break the
    /// block structure.
    ValueHasNewline,
    /// The preshared key decodes to exactly the peer's public key bytes.
    PresharedMatchesPublic,
}

/// Why a `set` command could not be built.
#[derive(Debug, PartialEq, Eq, Structural)]
pub enum UapiError {
    /// The interface private key did not decode to 32 bytes.
    InvalidPrivateKey,
    /// The first faulty peer, with what is wrong about it.
    Peer { index: usize, fault: PeerFault },
}

// ---------------------------------------------------------------------------
// Validity and fault specification
// ---------------------------------------------------------------------------

pub open spec fn key_bytes_ok(k: Option<Vec<u8>>) -> bool {
    match k {
        Some(v) => v@.len() == 32,
        None => false,
    }
}

/// The peer names an endpoint that must appear on an `endpoint=` line.
pub open spec fn wants_endpoint(p: PeerConfig) -> bool {
    match p.endpoint {
        Some(e) => e@.len() > 0,
        None => false,
    }
}

/// The peer carries a non-empty preshared key field.
pub open spec fn wants_psk(p: PeerConfig) -> bool {
    match p.preshared_key {
        Some(s) => s@.len() > 0,
        None => false,
    }
}

/// A present preshared key that decoded to 32 bytes; only those are pushed.
/// An invalid one is skipped, not fatal.
pub open spec fn psk_usable(p: PeerConfig, kb: PeerKeyBytes) -> bool {
    wants_psk(p) && key_bytes_ok(kb.preshared_key)
}

/// The fatal case: a usable preshared key whose bytes equal the peer's
/// public key bytes.
pub open spec fn psk_matches_public(p: PeerConfig, kb: PeerKeyBytes) -> bool {
    psk_usable(p, kb) && key_bytes_ok(kb.public_key) && kb.preshared_key.unwrap()@
        == kb.public_key.unwrap()@
}

/// A preshared key line is emitted for usable, non-matching keys.
pub open spec fn psk_emitted(p: PeerConfig, kb: PeerKeyBytes) -> bool {
    psk_usable(p, kb) && !psk_matches_public(p, kb)
}

pub open spec fn some_allowed_ip_has_newline(p: PeerConfig) -> bool {
    exists|j: int| 0 <= j < p.allowed_ips@.len() && seq_contains_char(p.allowed_ips@[j]@, '\n')
}

/// The first fault of a peer, in the order the codec checks: public key,
/// endpoint, preshared key, allowed ranges.
pub open spec fn peer_fault(p: PeerConfig, kb: PeerKeyBytes, r: Option<String>) -> Option<
    PeerFault,
> {
    if !key_bytes_ok(kb.public_key) {
        Some(PeerFault::BadPublicKey)
    } else if wants_endpoint(p) && r is None {
        Some(PeerFault::UnresolvedEndpoint)
    } else if wants_endpoint(p) && seq_contains_char(r.unwrap()@, '\n') {
        Some(PeerFault::ValueHasNewline)
    } else if psk_matches_public(p, kb) {
        Some(PeerFault::PresharedMatchesPublic)
    } else if some_allowed_ip_has_newline(p) {
        Some(PeerFault::ValueHasNewline)
    } else {
        None
    }
}

/// The first faulty peer at or after index `i`.
pub open spec fn peers_error_from(
    c: InterfaceConfig,
    kb: ConfigKeyBytes,
    res: Seq<Option<String>>,
    i: int,
) -> Option<UapiError>
    decreases c.peers@.len() - i,
{
    if i < 0 || i >= c.peers@.len() {
        None
    } else {
        match peer_fault(c.peers@[i], kb.peers@[i], res[i]) {
            Some(f) => Some(UapiError::Peer { index: i as usize, fault: f }),
            None => peers_error_from(c, kb, res, i + 1),
        }
    }
}

/// Whether and why building the `set` command fails: a bad private key
/// first, then the first faulty peer.
pub open spec fn set_error_spec(
    c: InterfaceConfig,
    kb: ConfigKeyBytes,
    res: Seq<Option<String>>,
) -> Option<UapiError> {
    if !key_bytes_ok(kb.private_key) {
        Some(UapiError::InvalidPrivateKey)
    } else {
        peers_error_from(c, kb, res, 0)
    }
}

// ---------------------------------------------------------------------------
// Line specification
// ---------------------------------------------------------------------------

pub open spec fn listen_port_lines(c: InterfaceConfig) -> Seq<Seq<char>> {
    match c.listen_port {
        Some(p) => seq!["listen_port="@ + dec_of(p as nat)],
        None => Seq::<Seq<char>>::empty(),
    }
}

pub open spec fn fwmark_lines(c: InterfaceConfig) -> Seq<Seq<char>> {
    match c.fwmark {
        Some(m) => seq!["fwmark="@ + dec_of(m as nat)],
        None => Seq::<Seq<char>>::empty(),
    }
}

pub open spec fn replace_peers_lines(c: InterfaceConfig) -> Seq<Seq<char>> {
    if c.replace_peers {
        seq!["replace_peers=true"@]
    } else {
        Seq::<Seq<char>>::empty()
    }
}

/// The interface part of the `set` command.
pub open spec fn header_lines(c: InterfaceConfig, kb: ConfigKeyBytes) -> Seq<Seq<char>> {
    seq!["set=1"@, "private_key="@ + hex_of(kb.private_key.unwrap()@)] + listen_port_lines(c)
        + fwmark_lines(c) + replace_peers_lines(c)
}

pub open spec fn endpoint_lines(p: PeerConfig, r: Option<String>) -> Seq<Seq<char>> {
    if wants_endpoint(p) {
        seq!["endpoint="@ + r.unwrap()@]
    } else {
        Seq::<Seq<char>>::empty()
    }
}

pub open spec fn psk_lines(p: PeerConfig, kb: PeerKeyBytes) -> Seq<Seq<char>> {
    if psk_emitted(p, kb) {
        seq!["preshared_key="@ + hex_of(kb.preshared_key.unwrap()@)]
    } else {
        Seq::<Seq<char>>::empty()
    }
}

pub open spec fn keepalive_lines(p: PeerConfig) -> Seq<Seq<char>> {
    match p.persistent_keepalive {
        Some(k) => seq!["persistent_keepalive_interval="@ + dec_of(k as nat)],
        None => Seq::<Seq<char>>::empty(),
    }
}

pub open spec fn allowed_ip_lines(p: PeerConfig) -> Seq<Seq<char>> {
    Seq::new(p.allowed_ips@.len(), |j: int| "allowed_ip="@ + p.allowed_ips@[j]@)
}

/// One peer's block: public key, then endpoint, preshared key, keepalive and
/// allowed ranges, in the protocol's order.
pub open spec fn peer_lines(p: PeerConfig, kb: PeerKeyBytes, r: Option<String>) -> Seq<Seq<char>> {
    seq!["public_key="@ + hex_of(kb.public_key.unwrap()@)] + endpoint_lines(p, r) + psk_lines(
        p,
        kb,
    ) + keepalive_lines(p) + allowed_ip_lines(p)
}

/// The blocks of the first `n` peers, in order and not interleaved.
pub open spec fn peers_lines_prefix(
    c: InterfaceConfig,
    kb: ConfigKeyBytes,
    res: Seq<Option<String>>,
    n: int,
) -> Seq<Seq<char>>
    decreases n,
{
    if n <= 0 {
        Seq::<Seq<char>>::empty()
    } else {
        peers_lines_prefix(c, kb, res, n - 1) + peer_lines(
            c.peers@[n - 1],
            kb.peers@[n - 1],
            res[n - 1],
        )
    }
}

/// The whole `set` command as lines: interface header, one block per peer,
/// and the final empty line that terminates the command.
pub open spec fn set_lines_spec(
    c: InterfaceConfig,
    kb: ConfigKeyBytes,
    res: Seq<Option<String>>,
) -> Seq<Seq<char>> {
    header_lines(c, kb) + peers_lines_prefix(c, kb, res, c.peers@.len() as int) + seq![
        Seq::<char>::empty(),
    ]
}

/// The views of a vector of lines.
pub open spec fn line_views(lines: Seq<String>) -> Seq<Seq<char>> {
    lines.map_values(|l: String| l@)
}

// ---------------------------------------------------------------------------
// Building helpers
// ---------------------------------------------------------------------------

pub(crate) fn push_line(lines: &mut Vec<String>, text: &str)
    ensures
        line_views(final(lines)@) == line_views(old(lines)@).push(text@),
{
    lines.push(text.to_owned());
    proof {
        assert(line_views(lines@) =~= line_views(old(lines)@).push(text@));
    }
}

pub(crate) fn push_kv(lines: &mut Vec<String>, key: &str, value: &str)
    ensures
        line_views(final(lines)@) == line_views(old(lines)@).push(key@ + value@),
{
    let mut s = key.to_owned();
    s.append(value);
    lines.push(s);
    proof {
        assert(line_views(lines@) =~= line_views(old(lines)@).push(key@ + value@));
    }
}

pub(crate) fn push_kv_u64(lines: &mut Vec<String>, key: &str, n: u64)
    ensures
        line_views(final(lines)@) == line_views(old(lines)@).push(key@ + dec_of(n as nat)),
{
    let v = u64_to_dec(n);
    push_kv(lines, key, v.as_str());
}

fn bytes_eq(a: &Vec<u8>, b: &Vec<u8>) -> (r: bool)
    ensures
        r == (a@ == b@),
{
    if a.len() != b.len() {
        return false;
    }
    let mut i: usize = 0;
    while i < a.len()
        invariant
            0 <= i <= a@.len(),
            a@.len() == b@.len(),
            forall|j: int| 0 <= j < i ==> a@[j] == b@[j],
        decreases a@.len() - i,
    {
        if a[i] != b[i] {
            return false;
        }
        i += 1;
    }
    proof {
        assert(a@ =~= b@);
    }
    true
}

// ---------------------------------------------------------------------------
// Error-search lemmas
// ---------------------------------------------------------------------------

proof fn lemma_peers_error_skip(
    c: InterfaceConfig,
    kb: ConfigKeyBytes,
    res: Seq<Option<String>>,
    j: int,
    k: int,
)
    requires
        0 <= j <= k <= c.peers@.len(),
        forall|m: int| j <= m < k ==> peer_fault(c.peers@[m], kb.peers@[m], res[m]) is None,
    ensures
        peers_error_from(c, kb, res, j) == peers_error_from(c, kb, res, k),
    decreases k - j,
{
    if j < k {
        lemma_peers_error_skip(c, kb, res, j + 1, k);
    }
}

proof fn lemma_peers_error_covers(
    c: InterfaceConfig,
    kb: ConfigKeyBytes,
    res: Seq<Option<String>>,
    j: int,
    i: int,
)
    requires
        0 <= j <= i < c.peers@.len(),
        peer_fault(c.peers@[i], kb.peers@[i], res[i]) is Some,
    ensures
        peers_error_from(c, kb, res, j) is Some,
    decreases i - j,
{
    if j < i && peer_fault(c.peers@[j], kb.peers@[j], res[j]) is None {
        lemma_peers_error_covers(c, kb, res, j + 1, i);
    }
}

// ---------------------------------------------------------------------------
// Building the `set` command
// ---------------------------------------------------------------------------

/// Decides the first fault of one peer, exactly as `peer_fault` specifies.
#[verifier::loop_isolation(false)]
fn check_peer(p: &PeerConfig, kb: &PeerKeyBytes, r: &Option<String>) -> (res: Option<PeerFault>)
    ensures
        res == peer_fault(*p, *kb, *r),
{
    let pub_ok = match &kb.public_key {
        Some(v) => v.len() == 32,
        None => false,
    };
    if !pub_ok {
        return Some(PeerFault::BadPublicKey);
    }
    let wants_ep = match &p.endpoint {
        Some(e) => !e.as_str().is_empty(),
        None => false,
    };
    if wants_ep {
        match r {
            None => {
                return Some(PeerFault::UnresolvedEndpoint);
            },
            Some(addr) => {
                if str_contains_char(addr.as_str(), '\n') {
                    return Some(PeerFault::ValueHasNewline);
                }
            },
        }
    }
    let psk_len_ok = match &p.preshared_key {
        Some(ps) => {
            if ps.as_str().is_empty() {
                false
            } else {
                match &kb.preshared_key {
                    Some(pb) => pb.len() == 32,
                    None => false,
                }
            }
        },
        None => false,
    };
    if psk_len_ok {
        let matches_pub = match (&kb.preshared_key, &kb.public_key) {
            (Some(pb), Some(pu)) => bytes_eq(pb, pu),
            _ => false,
        };
        if matches_pub {
            return Some(PeerFault::PresharedMatchesPublic);
        }
    }
    let m = p.allowed_ips.len();
    let mut j: usize = 0;
    while j < m
        invariant
            0 <= j <= m,
            forall|k: int| 0 <= k < j ==> !seq_contains_char(p.allowed_ips@[k]@, '\n'),
        decreases m - j,
    {
        if str_contains_char(p.allowed_ips[j].as_str(), '\n') {
            proof {
                assert(seq_contains_char(p.allowed_ips@[j as int]@, '\n'));
                assert(some_allowed_ip_has_newline(*p));
            }
            return Some(PeerFault::ValueHasNewline);
        }
        j += 1;
    }
    proof {
        assert(!some_allowed_ip_has_newline(*p));
    }
    None
}

/// Appends one faultless peer's block to the lines being built.
#[verifier::loop_isolation(false)]
#[verifier::rlimit(60)]
fn append_peer_lines(lines: &mut Vec<String>, p: &PeerConfig, kb: &PeerKeyBytes, r: &Option<String>)
    requires
        peer_fault(*p, *kb, *r) is None,
    ensures
        line_views(final(lines)@) == line_views(old(lines)@) + peer_lines(*p, *kb, *r),
{
    let ghost v0 = line_views(lines@);
    let pub_bytes: &Vec<u8> = match &kb.public_key {
        Some(v) => v,
        None => {
            proof {
                assert(false);
            }
            return ;
        },
    };
    let pk_hex = crate::keys::hex_encode(pub_bytes);
    push_kv(lines, "public_key=", pk_hex.as_str());
    proof {
        assert(line_views(lines@) =~= v0 + seq!["public_key="@ + hex_of(kb.public_key.unwrap()@)]);
    }
    let ghost v1 = line_views(lines@);

    match &p.endpoint {
        Some(e) => {
            if !e.as_str().is_empty() {
                match r {
                    Some(addr) => {
                        push_kv(lines, "endpoint=", addr.as_str());
                    },
                    None => {
                        proof {
                            assert(false);
                        }
                    },
                }
            }
        },
        None => {},
    }
    proof {
        assert(line_views(lines@) =~= v1 + endpoint_lines(*p, *r));
    }
    let ghost v2 = line_views(lines@);

    match &p.preshared_key {
        Some(ps) => {
            if !ps.as_str().is_empty() {
                match &kb.preshared_key {
                    Some(pb) => {
                        if pb.len() == 32 {
                            let psk_hex = crate::keys::hex_encode(pb);
                            push_kv(lines, "preshared_key=", psk_hex.as_str());
                            proof {
                                assert(psk_emitted(*p, *kb));
                            }
                        }
                    },
                    None => {},
                }
            }
        },
        None => {},
    }
    proof {
        assert(line_views(lines@) =~= v2 + psk_lines(*p, *kb));
    }
    let ghost v3 = line_views(lines@);

    if let Some(k) = p.persistent_keepalive {
        push_kv_u64(lines, "persistent_keepalive_interval=", k as u64);
    }
    proof {
        assert(line_views(lines@) =~= v3 + keepalive_lines(*p));
    }
    let ghost v4 = line_views(lines@);

    let m = p.allowed_ips.len();
    let mut j: usize = 0;
    while j < m
        invariant
            0 <= j <= m,
            line_views(lines@).len() == v4.len() + j,
            forall|k: int| 0 <= k < v4.len() ==> line_views(lines@)[k] == v4[k],
            forall|k: int|
                0 <= k < j ==> line_views(lines@)[v4.len() + k] == "allowed_ip="@
                    + p.allowed_ips@[k]@,
        decreases m - j,
    {
        push_kv(lines, "allowed_ip=", p.allowed_ips[j].as_str());
        j += 1;
    }
    proof {
        assert(line_views(lines@) =~= v4 + allowed_ip_lines(*p));
        assert(line_views(lines@) =~= v0 + peer_lines(*p, *kb, *r));
    }
}

/// Builds the lines of a `set` command from a configuration whose key
/// material has already been decoded. This is where every validation rule of
/// the codec is decided; the contract pins both the failure and the exact
/// lines of the success case.
#[verifier::loop_isolation(false)]
#[verifier::rlimit(60)]
pub fn build_set_lines(
    config: &InterfaceConfig,
    keys: &ConfigKeyBytes,
    resolved: &Vec<Option<String>>,
) -> (r: Result<Vec<String>, UapiError>)
    requires
        keys.peers@.len() == config.peers@.len(),
        resolved@.len() == config.peers@.len(),
    ensures
        r is Ok <==> set_error_spec(*config, *keys, resolved@) is None,
        r is Err ==> r->Err_0 == set_error_spec(*config, *keys, resolved@).unwrap(),
        r is Ok ==> line_views(r->Ok_0@) == set_lines_spec(*config, *keys, resolved@),
{
    let priv_hex: String = match &keys.private_key {
        None => {
            return Err(UapiError::InvalidPrivateKey);
        },
        Some(v) => {
            if v.len() != 32 {
                return Err(UapiError::InvalidPrivateKey);
            }
            crate::keys::hex_encode(v)
        },
    };
    let mut lines: Vec<String> = Vec::new();
    push_line(&mut lines, "set=1");
    push_kv(&mut lines, "private_key=", priv_hex.as_str());
    if let Some(port) = config.listen_port {
        push_kv_u64(&mut lines, "listen_port=", port as u64);
    }
    if let Some(mark) = config.fwmark {
        push_kv_u64(&mut lines, "fwmark=", mark as u64);
    }
    if config.replace_peers {
        push_line(&mut lines, "replace_peers=true");
    }
    proof {
        assert(line_views(lines@) =~= header_lines(*config, *keys));
    }
    let n = config.peers.len();
    let mut i: usize = 0;
    while i < n
        invariant
            0 <= i <= n,
            line_views(lines@) == header_lines(*config, *keys) + peers_lines_prefix(
                *config,
                *keys,
                resolved@,
                i as int,
            ),
            forall|m: int|
                0 <= m < i ==> peer_fault(
                    config.peers@[m],
                    keys.peers@[m],
                    resolved@[m],
                ) is None,
        decreases n - i,
    {
        let ghost v0 = line_views(lines@);
        match check_peer(&config.peers[i], &keys.peers[i], &resolved[i]) {
            Some(fault) => {
                proof {
                    lemma_peers_error_skip(*config, *keys, resolved@, 0, i as int);
                }
                return Err(UapiError::Peer { index: i, fault });
            },
            None => {},
        }
        append_peer_lines(&mut lines, &config.peers[i], &keys.peers[i], &resolved[i]);
        proof {
            assert(line_views(lines@) =~= header_lines(*config, *keys) + peers_lines_prefix(
                *config,
                *keys,
                resolved@,
                i as int + 1,
            ));
        }
        i += 1;
    }
    push_line(&mut lines, "");
    proof {
        reveal_strlit("");
        assert(""@ =~= Seq::<char>::empty());
        lemma_peers_error_skip(*config, *keys, resolved@, 0, n as int);
        assert(line_views(lines@) =~= set_lines_spec(*config, *keys, resolved@));
    }
    Ok(lines)
}

// ---------------------------------------------------------------------------
// Rendering and the small commands
// ---------------------------------------------------------------------------

/// A line sequence rendered as protocol text: every line followed by a
/// newline, so a trailing empty line becomes the blank-line terminator.
pub open spec fn render_lines_spec(lines: Seq<Seq<char>>) -> Seq<char>
    decreases lines.len(),
{
    if lines.len() == 0 {
        Seq::<char>::empty()
    } else {
        render_lines_spec(lines.drop_last()) + lines.last() + seq!['\n']
    }
}

#[verifier::loop_isolation(false)]
pub fn render_lines(lines: &Vec<String>) -> (r: String)
    ensures
        r@ == render_lines_spec(line_views(lines@)),
{
    let mut out = String::new();
    let mut i: usize = 0;
    while i < lines.len()
        invariant
            0 <= i <= lines@.len(),
            out@ == render_lines_spec(line_views(lines@).subrange(0, i as int)),
        decreases lines@.len() - i,
    {
        out.append(lines[i].as_str());
        out.append("\n");
        proof {
            reveal_strlit("\n");
            assert("\n"@ =~= seq!['\n']);
            let lv = line_views(lines@);
            assert(lv.subrange(0, i as int + 1).drop_last() =~= lv.subrange(0, i as int));
            assert(lv.subrange(0, i as int + 1).last() == lv[i as int]);
            assert(out@ =~= render_lines_spec(lv.subrange(0, i as int + 1)));
        }
        i += 1;
    }
    proof {
        assert(line_views(lines@).subrange(0, lines@.len() as int) =~= line_views(lines@));
    }
    out
}

/// The query command that asks the engine for its state.
pub fn build_get_command() -> (r: String)
    ensures
        r@ == "get=1\n\n"@,
{
    "get=1\n\n".to_owned()
}

/// The minimal update that repoints one peer's endpoint and touches nothing
/// else.
pub open spec fn endpoint_update_spec(key_bytes: Seq<u8>, addr: Seq<char>) -> Seq<char> {
    "set=1\npublic_key="@ + hex_of(key_bytes) + "\nendpoint="@ + addr + "\n\n"@
}

/// Builds the endpoint-update command for one peer from its base64 public
/// key and an already-resolved address. Succeeds exactly when the key
/// decodes to 32 bytes; the failures are told apart if-and-only-if.
pub fn build_endpoint_update(public_key: &str, addr: &str) -> (r: Result<String, KeyError>)
    requires
        !seq_contains_char(addr@, '\n'),
    ensures
        r is Ok <==> base64_ok(trim_spec(public_key@)) && base64_decoded(
            trim_spec(public_key@),
        ).len() == 32,
        r is Ok ==> r.unwrap()@ == endpoint_update_spec(
            base64_decoded(trim_spec(public_key@)),
            addr@,
        ),
        r == Err::<String, KeyError>(KeyError::NotBase64) <==> !base64_ok(trim_spec(public_key@)),
        base64_ok(trim_spec(public_key@)) && base64_decoded(trim_spec(public_key@)).len() != 32
            <==> (r->Err_0 matches KeyError::WrongLength { len } && r is Err && len
            == base64_decoded(trim_spec(public_key@)).len()),
{
    let hex = match base64_to_hex(public_key) {
        Ok(h) => h,
        Err(e) => {
            return Err(e);
        },
    };
    let mut out = "set=1\npublic_key=".to_owned();
    out.append(hex.as_str());
    out.append("\nendpoint=");
    out.append(addr);
    out.append("\n\n");
    Ok(out)
}

// ---------------------------------------------------------------------------
// Decoding and building in one step
// ---------------------------------------------------------------------------

/// The decode outcome `k` is exactly what the base64 engine produces for
/// the key text `text`: present if and only if the trimmed text decodes,
/// and then carrying the decoded bytes.
pub open spec fn key_option_consistent(k: Option<Vec<u8>>, text: Seq<char>) -> bool {
    &&& k is Some <==> base64_ok(trim_spec(text))
    &&& (k is Some ==> k.unwrap()@ == base64_decoded(trim_spec(text)))
}

/// The decoded key material `kb` is exactly the decode outcome of the keys
/// of `c`: each entry is pinned by `key_option_consistent`, and a peer
/// without a non-empty preshared key field gets no preshared bytes. Up to
/// the identity of the byte vectors, this determines `kb` from `c`.
pub open spec fn config_keys_consistent(c: InterfaceConfig, kb: ConfigKeyBytes) -> bool {
    &&& kb.peers@.len() == c.peers@.len()
    &&& key_option_consistent(kb.private_key, c.private_key@)
    &&& forall|i: int|
        0 <= i < c.peers@.len() ==> key_option_consistent(
            #[trigger] kb.peers@[i].public_key,
            c.peers@[i].public_key@,
        )
    &&& forall|i: int|
        0 <= i < c.peers@.len() ==> (wants_psk(c.peers@[i]) ==> key_option_consistent(
            #[trigger] kb.peers@[i].preshared_key,
            c.peers@[i].preshared_key.unwrap()@,
        ))
    &&& forall|i: int|
        0 <= i < c.peers@.len() ==> (!wants_psk(c.peers@[i])
            ==> #[trigger] kb.peers@[i].preshared_key is None)
}

/// Decodes every key of the configuration and renders the full `set`
/// command. The key material is exactly the engine's decode outcome for
/// the configuration's keys, and the result — success with the rendered
/// text, or the precise error — is the one `build_set_lines` fixes for
/// that outcome.
#[verifier::loop_isolation(false)]
pub fn build_set_command(config: &InterfaceConfig, resolved: &Vec<Option<String>>) -> (r: Result<
    String,
    UapiError,
>)
    requires
        resolved@.len() == config.peers@.len(),
    ensures
        exists|kb: ConfigKeyBytes|
            #[trigger] config_keys_consistent(*config, kb) && (match r {
                Ok(text) => set_error_spec(*config, kb, resolved@) is None && text@
                    == render_lines_spec(set_lines_spec(*config, kb, resolved@)),
                Err(e) => set_error_spec(*config, kb, resolved@) == Some(e),
            }),
{
    let priv_bytes = base64_key_bytes(config.private_key.as_str());
    let mut pkbs: Vec<PeerKeyBytes> = Vec::new();
    let n = config.peers.len();
    let mut i: usize = 0;
    while i < n
        invariant
            0 <= i <= n,
            pkbs@.len() == i,
            forall|m: int|
                0 <= m < i ==> key_option_consistent(
                    #[trigger] pkbs@[m].public_key,
                    config.peers@[m].public_key@,
                ),
            forall|m: int|
                0 <= m < i ==> (wants_psk(config.peers@[m]) ==> key_option_consistent(
                    #[trigger] pkbs@[m].preshared_key,
                    config.peers@[m].preshared_key.unwrap()@,
                )),
            forall|m: int|
                0 <= m < i ==> (!wants_psk(config.peers@[m])
                    ==> #[trigger] pkbs@[m].preshared_key is None),
        decreases n - i,
    {
        let pb = base64_key_bytes(config.peers[i].public_key.as_str());
        let sb: Option<Vec<u8>> = match &config.peers[i].preshared_key {
            Some(ps) => {
                if ps.as_str().is_empty() {
                    None
                } else {
                    base64_key_bytes(ps.as_str())
                }
            },
            None => None,
        };
        pkbs.push(PeerKeyBytes { public_key: pb, preshared_key: sb });
        i += 1;
    }
    let kb = ConfigKeyBytes { private_key: priv_bytes, peers: pkbs };
    proof {
        assert(config_keys_consistent(*config, kb));
    }
    match build_set_lines(config, &kb, resolved) {
        Ok(lines) => Ok(render_lines(&lines)),
        Err(e) => Err(e),
    }
}

// ---------------------------------------------------------------------------
// Laws about the block structure
// ---------------------------------------------------------------------------

/// How many lines of `lines` start with `p`.
pub open spec fn count_lines_with_prefix(lines: Seq<Seq<char>>, p: Seq<char>) -> nat
    decreases lines.len(),
{
    if lines.len() == 0 {
        0
    } else {
        count_lines_with_prefix(lines.drop_last(), p) + (if has_prefix(lines.last(), p) {
            1nat
        } else {
            0nat
        })
    }
}

proof fn lemma_count_concat(a: Seq<Seq<char>>, b: Seq<Seq<char>>, p: Seq<char>)
    ensures
        count_lines_with_prefix(a + b, p) == count_lines_with_prefix(a, p)
            + count_lines_with_prefix(b, p),
    decreases b.len(),
{
    if b.len() == 0 {
        assert(a + b =~= a);
    } else {
        lemma_count_concat(a, b.drop_last(), p);
        assert((a + b).drop_last() =~= a + b.drop_last());
        assert((a + b).last() == b.last());
    }
}

proof fn lemma_count_single(l: Seq<char>, p: Seq<char>)
    ensures
        count_lines_with_prefix(seq![l], p) == (if has_prefix(l, p) {
            1nat
        } else {
            0nat
        }),
{
    assert(seq![l].len() == 1);
    assert(seq![l].last() == l);
    assert(seq![l].drop_last() =~= Seq::<Seq<char>>::empty());
    assert(count_lines_with_prefix(Seq::<Seq<char>>::empty(), p) == 0);
}

/// A line differing from `p` at some position (or shorter than a differing
/// position) does not start with `p`.
proof fn lemma_prefix_mismatch(l: Seq<char>, p: Seq<char>, i: int)
    requires
        0 <= i < p.len(),
        i < l.len() ==> l[i] != p[i],
    ensures
        !has_prefix(l, p),
{
    if p.len() <= l.len() {
        assert(i < l.len());
        if l.subrange(0, p.len() as int) == p {
            assert(l.subrange(0, p.len() as int)[i] == l[i]);
        }
    }
}

/// A `key=value` line starts with its own key.
proof fn lemma_kv_has_own_prefix(k: Seq<char>, v: Seq<char>)
    ensures
        has_prefix(k + v, k),
{
    assert((k + v).subrange(0, k.len() as int) =~= k);
}

proof fn lemma_header_count(c: InterfaceConfig, kb: ConfigKeyBytes)
    ensures
        count_lines_with_prefix(header_lines(c, kb), "public_key="@) == 0,
{
    let p = "public_key="@;
    reveal_strlit("public_key=");
    reveal_strlit("set=1");
    reveal_strlit("private_key=");
    reveal_strlit("listen_port=");
    reveal_strlit("fwmark=");
    reveal_strlit("replace_peers=true");
    let l_set = "set=1"@;
    let l_priv = "private_key="@ + hex_of(kb.private_key.unwrap()@);
    lemma_prefix_mismatch(l_set, p, 0);
    assert(l_priv[1] == 'r');
    lemma_prefix_mismatch(l_priv, p, 1);
    assert(seq![l_set, l_priv] =~= seq![l_set] + seq![l_priv]);
    lemma_count_single(l_set, p);
    lemma_count_single(l_priv, p);
    lemma_count_concat(seq![l_set], seq![l_priv], p);
    match c.listen_port {
        Some(port) => {
            let l = "listen_port="@ + dec_of(port as nat);
            assert(l[0] == 'l');
            lemma_prefix_mismatch(l, p, 0);
            lemma_count_single(l, p);
        },
        None => {},
    }
    match c.fwmark {
        Some(m) => {
            let l = "fwmark="@ + dec_of(m as nat);
            assert(l[0] == 'f');
            lemma_prefix_mismatch(l, p, 0);
            lemma_count_single(l, p);
        },
        None => {},
    }
    if c.replace_peers {
        let l = "replace_peers=true"@;
        assert(l[1] == 'e');
        lemma_prefix_mismatch(l, p, 1);
        lemma_count_single(l, p);
    }
    lemma_count_concat(seq![l_set, l_priv], listen_port_lines(c), p);
    lemma_count_concat(seq![l_set, l_priv] + listen_port_lines(c), fwmark_lines(c), p);
    lemma_count_concat(
        seq![l_set, l_priv] + listen_port_lines(c) + fwmark_lines(c),
        replace_peers_lines(c),
        p,
    );
}

proof fn lemma_allowed_count_up_to(pc: PeerConfig, n: int)
    requires
        0 <= n <= pc.allowed_ips@.len(),
    ensures
        count_lines_with_prefix(
            Seq::new(n as nat, |j: int| "allowed_ip="@ + pc.allowed_ips@[j]@),
            "public_key="@,
        ) == 0,
    decreases n,
{
    let p = "public_key="@;
    reveal_strlit("public_key=");
    reveal_strlit("allowed_ip=");
    let al = Seq::new(n as nat, |j: int| "allowed_ip="@ + pc.allowed_ips@[j]@);
    if n > 0 {
        lemma_allowed_count_up_to(pc, n - 1);
        let last = al.last();
        assert(last == "allowed_ip="@ + pc.allowed_ips@[n - 1]@);
        assert(last[0] == 'a');
        lemma_prefix_mismatch(last, p, 0);
        assert(al.drop_last() =~= Seq::new((n - 1) as nat, |j: int| "allowed_ip="@
            + pc.allowed_ips@[j]@));
    }
}

proof fn lemma_peer_count(pc: PeerConfig, kb: PeerKeyBytes, r: Option<String>)
    ensures
        count_lines_with_prefix(peer_lines(pc, kb, r), "public_key="@) == 1,
{
    let p = "public_key="@;
    reveal_strlit("public_key=");
    reveal_strlit("endpoint=");
    reveal_strlit("preshared_key=");
    reveal_strlit("persistent_keepalive_interval=");
    let l_pk = p + hex_of(kb.public_key.unwrap()@);
    lemma_kv_has_own_prefix(p, hex_of(kb.public_key.unwrap()@));
    lemma_count_single(l_pk, p);
    if wants_endpoint(pc) {
        let l = "endpoint="@ + r.unwrap()@;
        assert(l[0] == 'e');
        lemma_prefix_mismatch(l, p, 0);
        lemma_count_single(l, p);
    }
    if psk_emitted(pc, kb) {
        let l = "preshared_key="@ + hex_of(kb.preshared_key.unwrap()@);
        assert(l[1] == 'r');
        lemma_prefix_mismatch(l, p, 1);
        lemma_count_single(l, p);
    }
    match pc.persistent_keepalive {
        Some(k) => {
            let l = "persistent_keepalive_interval="@ + dec_of(k as nat);
            assert(l[1] == 'e');
            lemma_prefix_mismatch(l, p, 1);
            lemma_count_single(l, p);
        },
        None => {},
    }
    lemma_allowed_count_up_to(pc, pc.allowed_ips@.len() as int);
    assert(allowed_ip_lines(pc) =~= Seq::new(pc.allowed_ips@.len(), |j: int| "allowed_ip="@
        + pc.allowed_ips@[j]@));
    lemma_count_concat(seq![l_pk], endpoint_lines(pc, r), p);
    lemma_count_concat(seq![l_pk] + endpoint_lines(pc, r), psk_lines(pc, kb), p);
    lemma_count_concat(
        seq![l_pk] + endpoint_lines(pc, r) + psk_lines(pc, kb),
        keepalive_lines(pc),
        p,
    );
    lemma_count_concat(
        seq![l_pk] + endpoint_lines(pc, r) + psk_lines(pc, kb) + keepalive_lines(pc),
        allowed_ip_lines(pc),
        p,
    );
}

proof fn lemma_peers_prefix_count(
    c: InterfaceConfig,
    kb: ConfigKeyBytes,
    res: Seq<Option<String>>,
    n: int,
)
    requires
        0 <= n <= c.peers@.len(),
    ensures
        count_lines_with_prefix(peers_lines_prefix(c, kb, res, n), "public_key="@) == n,
    decreases n,
{
    if n > 0 {
        lemma_peers_prefix_count(c, kb, res, n - 1);
        lemma_peer_count(c.peers@[n - 1], kb.peers@[n - 1], res[n - 1]);
        lemma_count_concat(
            peers_lines_prefix(c, kb, res, n - 1),
            peer_lines(c.peers@[n - 1], kb.peers@[n - 1], res[n - 1]),
            "public_key="@,
        );
    }
}

/// Law: the `set` command for a configuration with N peers contains exactly
/// N `public_key=` lines, and the command is the interface header followed
/// by the N peer blocks in order and the terminating blank line — blocks are
/// never interleaved. The line count holds for any decode outcome; the shape
/// clause restates the definition so a reader sees it stated, not implied.
pub proof fn lemma_set_command_block_structure(
    c: InterfaceConfig,
    kb: ConfigKeyBytes,
    res: Seq<Option<String>>,
)
    requires
        kb.peers@.len() == c.peers@.len(),
        res.len() == c.peers@.len(),
    ensures
        count_lines_with_prefix(set_lines_spec(c, kb, res), "public_key="@) == c.peers@.len(),
        set_lines_spec(c, kb, res) == header_lines(c, kb) + peers_lines_prefix(
            c,
            kb,
            res,
            c.peers@.len() as int,
        ) + seq![Seq::<char>::empty()],
{
    let p = "public_key="@;
    reveal_strlit("public_key=");
    lemma_header_count(c, kb);
    lemma_peers_prefix_count(c, kb, res, c.peers@.len() as int);
    lemma_count_concat(header_lines(c, kb), peers_lines_prefix(c, kb, res, c.peers@.len() as int), p);
    lemma_prefix_mismatch(Seq::<char>::empty(), p, 0);
    lemma_count_single(Seq::<char>::empty(), p);
    lemma_count_concat(
        header_lines(c, kb) + peers_lines_prefix(c, kb, res, c.peers@.len() as int),
        seq![Seq::<char>::empty()],
        p,
    );
}

/// Law: a preshared key byte-equal to its peer's public key is always
/// rejected — no `set` command is ever built for such a configuration,
/// regardless of how the keys were spelled in base64.
pub proof fn lemma_preshared_equal_always_rejected(
    c: InterfaceConfig,
    kb: ConfigKeyBytes,
    res: Seq<Option<String>>,
    i: int,
)
    requires
        kb.peers@.len() == c.peers@.len(),
        res.len() == c.peers@.len(),
        0 <= i < c.peers@.len(),
        psk_matches_public(c.peers@[i], kb.peers@[i]),
    ensures
        set_error_spec(c, kb, res) is Some,
{
    if key_bytes_ok(kb.private_key) {
        assert(peer_fault(c.peers@[i], kb.peers@[i], res[i]) is Some);
        lemma_peers_error_covers(c, kb, res, 0, i);
    }
}

proof fn lemma_no_nl_concat(a: Seq<char>, b: Seq<char>)
    requires
        !seq_contains_char(a, '\n'),
        !seq_contains_char(b, '\n'),
    ensures
        !seq_contains_char(a + b, '\n'),
{
    if seq_contains_char(a + b, '\n') {
        let i = choose|i: int| 0 <= i < (a + b).len() && (a + b)[i] == '\n';
        if i < a.len() {
            assert(a[i] == '\n');
        } else {
            assert(b[i - a.len()] == '\n');
        }
    }
}

proof fn lemma_hex_no_nl(b: Seq<u8>)
    ensures
        !seq_contains_char(hex_of(b), '\n'),
{
    crate::keys::lemma_hex_of_digits(b);
    if seq_contains_char(hex_of(b), '\n') {
        let i = choose|i: int| 0 <= i < hex_of(b).len() && hex_of(b)[i] == '\n';
        assert(crate::keys::is_hex_digit(hex_of(b)[i]));
    }
}

proof fn lemma_dec_no_nl(n: nat)
    ensures
        !seq_contains_char(dec_of(n), '\n'),
{
    crate::text::lemma_dec_of_no_newline(n);
    if seq_contains_char(dec_of(n), '\n') {
        let i = choose|i: int| 0 <= i < dec_of(n).len() && dec_of(n)[i] == '\n';
    }
}

proof fn lemma_lit_no_nl_private_key()
    ensures
        !seq_contains_char("private_key="@, '\n'),
        !seq_contains_char("set=1"@, '\n'),
        !seq_contains_char("listen_port="@, '\n'),
        !seq_contains_char("fwmark="@, '\n'),
        !seq_contains_char("replace_peers=true"@, '\n'),
        !seq_contains_char("public_key="@, '\n'),
        !seq_contains_char("endpoint="@, '\n'),
        !seq_contains_char("preshared_key="@, '\n'),
        !seq_contains_char("persistent_keepalive_interval="@, '\n'),
        !seq_contains_char("allowed_ip="@, '\n'),
        !seq_contains_char(Seq::<char>::empty(), '\n'),
{
    reveal_strlit("private_key=");
    reveal_strlit("set=1");
    reveal_strlit("listen_port=");
    reveal_strlit("fwmark=");
    reveal_strlit("replace_peers=true");
    reveal_strlit("public_key=");
    reveal_strlit("endpoint=");
    reveal_strlit("preshared_key=");
    reveal_strlit("persistent_keepalive_interval=");
    reveal_strlit("allowed_ip=");
}

/// Law: in a successfully built `set` command, no line contains a newline.
/// Together with the block-structure law this means the rendered text keeps
/// one value per line and the peer blocks cannot run into one another.
#[verifier::rlimit(60)]
pub proof fn lemma_set_lines_are_single_lines(
    c: InterfaceConfig,
    kb: ConfigKeyBytes,
    res: Seq<Option<String>>,
)
    requires
        kb.peers@.len() == c.peers@.len(),
        res.len() == c.peers@.len(),
        set_error_spec(c, kb, res) is None,
    ensures
        forall|i: int|
            0 <= i < set_lines_spec(c, kb, res).len() ==> !seq_contains_char(
                #[trigger] set_lines_spec(c, kb, res)[i],
                '\n',
            ),
{
    lemma_lit_no_nl_private_key();
    let lines = set_lines_spec(c, kb, res);
    assert forall|i: int|
        0 <= i < lines.len() implies !seq_contains_char(#[trigger] lines[i], '\n') by {
        let hdr = header_lines(c, kb);
        let mid = peers_lines_prefix(c, kb, res, c.peers@.len() as int);
        if i < hdr.len() {
            lemma_header_line_no_nl(c, kb, i);
        } else if i < hdr.len() + mid.len() {
            lemma_peers_prefix_line_no_nl(c, kb, res, c.peers@.len() as int, i - hdr.len());
        } else {
            assert(lines[i] == Seq::<char>::empty());
        }
    }
}

proof fn lemma_header_line_no_nl(c: InterfaceConfig, kb: ConfigKeyBytes, i: int)
    requires
        0 <= i < header_lines(c, kb).len(),
    ensures
        !seq_contains_char(header_lines(c, kb)[i], '\n'),
{
    lemma_lit_no_nl_private_key();
    let base = seq!["set=1"@, "private_key="@ + hex_of(kb.private_key.unwrap()@)];
    lemma_hex_no_nl(kb.private_key.unwrap()@);
    lemma_no_nl_concat("private_key="@, hex_of(kb.private_key.unwrap()@));
    match c.listen_port {
        Some(p) => {
            lemma_dec_no_nl(p as nat);
            lemma_no_nl_concat("listen_port="@, dec_of(p as nat));
        },
        None => {},
    }
    match c.fwmark {
        Some(m) => {
            lemma_dec_no_nl(m as nat);
            lemma_no_nl_concat("fwmark="@, dec_of(m as nat));
        },
        None => {},
    }
    let hdr = header_lines(c, kb);
    if i < 2 {
        assert(hdr[i] == base[i]);
    } else if i < 2 + listen_port_lines(c).len() {
        assert(hdr[i] == listen_port_lines(c)[i - 2]);
    } else if i < 2 + listen_port_lines(c).len() + fwmark_lines(c).len() {
        assert(hdr[i] == fwmark_lines(c)[i - 2 - listen_port_lines(c).len()]);
    } else {
        assert(hdr[i] == "replace_peers=true"@);
    }
}

proof fn lemma_peer_line_no_nl(p: PeerConfig, kb: PeerKeyBytes, r: Option<String>, i: int)
    requires
        peer_fault(p, kb, r) is None,
        0 <= i < peer_lines(p, kb, r).len(),
    ensures
        !seq_contains_char(peer_lines(p, kb, r)[i], '\n'),
{
    lemma_lit_no_nl_private_key();
    lemma_hex_no_nl(kb.public_key.unwrap()@);
    lemma_no_nl_concat("public_key="@, hex_of(kb.public_key.unwrap()@));
    if wants_endpoint(p) {
        lemma_no_nl_concat("endpoint="@, r.unwrap()@);
    }
    if psk_emitted(p, kb) {
        lemma_hex_no_nl(kb.preshared_key.unwrap()@);
        lemma_no_nl_concat("preshared_key="@, hex_of(kb.preshared_key.unwrap()@));
    }
    match p.persistent_keepalive {
        Some(k) => {
            lemma_dec_no_nl(k as nat);
            lemma_no_nl_concat("persistent_keepalive_interval="@, dec_of(k as nat));
        },
        None => {},
    }
    let pl = peer_lines(p, kb, r);
    let pre = seq!["public_key="@ + hex_of(kb.public_key.unwrap()@)] + endpoint_lines(p, r)
        + psk_lines(p, kb) + keepalive_lines(p);
    if i < pre.len() {
        if i == 0 {
        } else if i < 1 + endpoint_lines(p, r).len() {
            assert(pl[i] == endpoint_lines(p, r)[i - 1]);
        } else if i < 1 + endpoint_lines(p, r).len() + psk_lines(p, kb).len() {
            assert(pl[i] == psk_lines(p, kb)[i - 1 - endpoint_lines(p, r).len()]);
        } else {
            assert(pl[i] == keepalive_lines(p)[i - 1 - endpoint_lines(p, r).len() - psk_lines(
                p,
                kb,
            ).len()]);
        }
    } else {
        let j = i - pre.len();
        assert(pl[i] == allowed_ip_lines(p)[j]);
        assert(allowed_ip_lines(p)[j] == "allowed_ip="@ + p.allowed_ips@[j]@);
        assert(!seq_contains_char(p.allowed_ips@[j]@, '\n'));
        lemma_no_nl_concat("allowed_ip="@, p.allowed_ips@[j]@);
    }
}

proof fn lemma_peers_prefix_line_no_nl(
    c: InterfaceConfig,
    kb: ConfigKeyBytes,
    res: Seq<Option<String>>,
    n: int,
    i: int,
)
    requires
        kb.peers@.len() == c.peers@.len(),
        res.len() == c.peers@.len(),
        n <= c.peers@.len(),
        peers_error_from(c, kb, res, 0) is None,
        0 <= i < peers_lines_prefix(c, kb, res, n).len(),
    ensures
        !seq_contains_char(peers_lines_prefix(c, kb, res, n)[i], '\n'),
    decreases n,
{
    let pre = peers_lines_prefix(c, kb, res, n - 1);
    if i < pre.len() {
        lemma_peers_prefix_line_no_nl(c, kb, res, n - 1, i);
    } else {
        assert(peer_fault(c.peers@[n - 1], kb.peers@[n - 1], res[n - 1]) is None) by {
            if peer_fault(c.peers@[n - 1], kb.peers@[n - 1], res[n - 1]) is Some {
                lemma_peers_error_covers(c, kb, res, 0, n - 1);
            }
        }
        lemma_peer_line_no_nl(c.peers@[n - 1], kb.peers@[n - 1], res[n - 1], i - pre.len());
        assert(peers_lines_prefix(c, kb, res, n)[i] == peer_lines(
            c.peers@[n - 1],
            kb.peers@[n - 1],
            res[n - 1],
        )[i - pre.len()]);
    }
}

/// Law: rendering is faithful to the line structure. Splitting the
/// rendered text back on newlines recovers exactly the lines that were
/// rendered, plus the empty tail after the final newline — provided no
/// line contains a newline itself, which `lemma_set_lines_are_single_lines`
/// guarantees for every successfully built command.
pub proof fn lemma_render_split_roundtrip(lines: Seq<Seq<char>>)
    requires
        forall|i: int| 0 <= i < lines.len() ==> !seq_contains_char(#[trigger] lines[i], '\n'),
    ensures
        crate::text::split_spec(render_lines_spec(lines), '\n') == lines.push(
            Seq::<char>::empty(),
        ),
    decreases lines.len(),
{
    if lines.len() == 0 {
        assert(render_lines_spec(lines) =~= Seq::<char>::empty());
        assert(crate::text::split_spec(render_lines_spec(lines), '\n') =~~= lines.push(
            Seq::<char>::empty(),
        ));
    } else {
        lemma_render_split_roundtrip(lines.drop_last());
        let head = render_lines_spec(lines.drop_last());
        let whole = render_lines_spec(lines);
        let last = lines.last();
        assert(whole == head + last + seq!['\n']);
        lemma_split_prefix_lines(lines.drop_last(), last + seq!['\n']);
        assert(crate::text::split_spec(head + (last + seq!['\n']), '\n') == crate::text::split_spec(
            head,
            '\n',
        ).drop_last() + crate::text::split_spec(last + seq!['\n'], '\n'));
        let k = last.len() as int;
        assert((last + seq!['\n'])[k] == '\n');
        assert(forall|j: int| 0 <= j < k ==> (last + seq!['\n'])[j] != '\n') by {
            assert(forall|j: int| 0 <= j < k ==> (last + seq!['\n'])[j] == last[j]);
        }
        crate::text::lemma_split_at_first(last + seq!['\n'], '\n', k);
        assert((last + seq!['\n']).subrange(0, k) =~= last);
        assert((last + seq!['\n']).subrange(k + 1, k + 1) =~= Seq::<char>::empty());
        assert(crate::text::split_spec(Seq::<char>::empty(), '\n') =~~= seq![
            Seq::<char>::empty(),
        ]);
        assert(crate::text::split_spec(last + seq!['\n'], '\n') =~~= seq![last, Seq::<
            char,
        >::empty()]);
        assert(whole =~= head + (last + seq!['\n']));
        assert(crate::text::split_spec(whole, '\n') =~~= lines.push(Seq::<char>::empty()));
    }
}

/// Splitting text that starts with already-rendered newline-free lines:
/// the rendered prefix contributes its lines, and the split of the rest
/// continues from the prefix's final (empty) segment.
proof fn lemma_split_prefix_lines(lines: Seq<Seq<char>>, rest: Seq<char>)
    requires
        forall|i: int| 0 <= i < lines.len() ==> !seq_contains_char(#[trigger] lines[i], '\n'),
    ensures
        crate::text::split_spec(render_lines_spec(lines) + rest, '\n') == crate::text::split_spec(
            render_lines_spec(lines),
            '\n',
        ).drop_last() + crate::text::split_spec(rest, '\n'),
    decreases lines.len(),
{
    if lines.len() == 0 {
        assert(render_lines_spec(lines) =~= Seq::<char>::empty());
        assert(render_lines_spec(lines) + rest =~= rest);
        assert(crate::text::split_spec(render_lines_spec(lines), '\n') =~~= seq![Seq::<
            char,
        >::empty()]);
        assert(crate::text::split_spec(render_lines_spec(lines), '\n').drop_last()
            =~= Seq::<Seq<char>>::empty());
        assert(crate::text::split_spec(render_lines_spec(lines), '\n').drop_last()
            + crate::text::split_spec(rest, '\n') =~= crate::text::split_spec(rest, '\n'));
    } else {
        let head = render_lines_spec(lines.drop_last());
        let last = lines.last();
        let unit = last + seq!['\n'];
        lemma_split_prefix_lines(lines.drop_last(), unit + rest);
        lemma_split_prefix_lines(lines.drop_last(), unit);
        let k = last.len() as int;
        assert(unit[k] == '\n');
        assert(forall|j: int| 0 <= j < k ==> unit[j] != '\n') by {
            assert(forall|j: int| 0 <= j < k ==> unit[j] == last[j]);
        }
        // split of unit + rest: first newline at k
        assert((unit + rest)[k] == '\n');
        assert(forall|j: int| 0 <= j < k ==> (unit + rest)[j] == unit[j]);
        crate::text::lemma_split_at_first(unit + rest, '\n', k);
        crate::text::lemma_split_at_first(unit, '\n', k);
        assert((unit + rest).subrange(0, k) =~= last);
        assert(unit.subrange(0, k) =~= last);
        assert((unit + rest).subrange(k + 1, (unit + rest).len() as int) =~= rest);
        assert(unit.subrange(k + 1, unit.len() as int) =~= Seq::<char>::empty());
        let sh = crate::text::split_spec(head, '\n');
        crate::text::lemma_split_nonempty(rest, '\n');
        crate::text::lemma_split_nonempty(head, '\n');
        assert(render_lines_spec(lines) + rest =~= head + (unit + rest));
        assert(render_lines_spec(lines) =~= head + unit);
        assert(crate::text::split_spec(head + (unit + rest), '\n') == sh.drop_last() + (seq![
            last,
        ] + crate::text::split_spec(rest, '\n')));
        assert(crate::text::split_spec(head + unit, '\n') == sh.drop_last() + (seq![last] + seq![
            Seq::<char>::empty(),
        ]));
        assert(crate::text::split_spec(render_lines_spec(lines), '\n').drop_last() =~~= sh
            .drop_last() + seq![last]);
        assert(crate::text::split_spec(render_lines_spec(lines) + rest, '\n') =~~= crate::text::split_spec(
            render_lines_spec(lines),
            '\n',
        ).drop_last() + crate::text::split_spec(rest, '\n'));
    }
}

/// Law: reading a successfully built and rendered `set` command back as
/// lines gives exactly the built line sequence (with the empty tail after
/// the final newline), and that text contains exactly one `public_key=`
/// line per peer.
pub proof fn lemma_rendered_command_structure(
    c: InterfaceConfig,
    kb: ConfigKeyBytes,
    res: Seq<Option<String>>,
)
    requires
        kb.peers@.len() == c.peers@.len(),
        res.len() == c.peers@.len(),
        set_error_spec(c, kb, res) is None,
    ensures
        crate::text::split_spec(render_lines_spec(set_lines_spec(c, kb, res)), '\n')
            == set_lines_spec(c, kb, res).push(Seq::<char>::empty()),
        count_lines_with_prefix(
            crate::text::split_spec(render_lines_spec(set_lines_spec(c, kb, res)), '\n'),
            "public_key="@,
        ) == c.peers@.len(),
{
    let lines = set_lines_spec(c, kb, res);
    lemma_set_lines_are_single_lines(c, kb, res);
    lemma_render_split_roundtrip(lines);
    lemma_set_command_block_structure(c, kb, res);
    reveal_strlit("public_key=");
    lemma_prefix_mismatch(Seq::<char>::empty(), "public_key="@, 0);
    lemma_count_single(Seq::<char>::empty(), "public_key="@);
    lemma_count_concat(lines, seq![Seq::<char>::empty()], "public_key="@);
    assert(lines.push(Seq::<char>::empty()) =~= lines + seq![Seq::<char>::empty()]);
}

} // verus!
