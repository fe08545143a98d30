//! The vendor-service strategy's text handling: the multi-separator value
//! lists of the stored definition, the service name scraped from the vendor
//! tool's output, the ordered uninstall attempts, and the reading of the
//! tool's output when a service is already gone.

use vstd::prelude::*;

use crate::text::contains_sub;
use crate::text::has_prefix;
use crate::text::is_ascii_ws;
use crate::text::split_char;
use crate::text::split_spec;
use crate::text::str_contains_sub;
use crate::text::str_eq;
use crate::text::dec_of;
use crate::text::trim_spec;
use crate::uapi::line_views;
use crate::uapi::push_kv;
use crate::uapi::push_kv_u64;
use crate::uapi::push_line;
use crate::uapi::InterfaceConfig;
use crate::uapi::PeerConfig;
use crate::config::TunnelConfig;

verus! {

// ---------------------------------------------------------------------------
// Multi-separator value lists
// ---------------------------------------------------------------------------

/// The separators a stored list field accepts: comma, semicolon, and
/// whitespace.
pub open spec fn is_cfg_sep(c: char) -> bool {
    c == ',' || c == ';' || is_ascii_ws(c)
}

pub open spec fn norm_sep_char(c: char) -> char {
    if is_cfg_sep(c) {
        ','
    } else {
        c
    }
}

/// The non-empty segments of a split.
pub open spec fn nonempty_segments(parts: Seq<Seq<char>>) -> Seq<Seq<char>>
    decreases parts.len(),
{
    if parts.len() == 0 {
        Seq::<Seq<char>>::empty()
    } else {
        let rest = nonempty_segments(parts.drop_last());
        if parts.last().len() > 0 {
            rest.push(parts.last())
        } else {
            rest
        }
    }
}

/// The values of a list field: the runs of characters between separators,
/// in order, empties dropped.
pub open spec fn cfg_values_spec(s: Seq<char>) -> Seq<Seq<char>> {
    nonempty_segments(split_spec(s.map_values(|c: char| norm_sep_char(c)), ','))
}

fn is_cfg_sep_exec(c: char) -> (r: bool)
    ensures
        r == is_cfg_sep(c),
{
    c == ',' || c == ';' || c == ' ' || c == '\t' || c == '\n' || c == '\r'
}

proof fn lemma_nonempty_segments_step(parts: Seq<Seq<char>>, i: int)
    requires
        0 <= i < parts.len(),
    ensures
        nonempty_segments(parts.subrange(0, i + 1)) == (if parts[i].len() > 0 {
            nonempty_segments(parts.subrange(0, i)).push(parts[i])
        } else {
            nonempty_segments(parts.subrange(0, i))
        }),
{
    let t = parts.subrange(0, i + 1);
    assert(t.drop_last() =~= parts.subrange(0, i));
    assert(t.last() == parts[i]);
}

/// Splits a list field on commas, semicolons and whitespace, dropping
/// empty entries.
#[verifier::loop_isolation(false)]
pub fn split_config_values(value: &str) -> (r: Vec<String>)
    ensures
        r@.len() == cfg_values_spec(value@).len(),
        forall|i: int| 0 <= i < r@.len() ==> r@[i]@ == cfg_values_spec(value@)[i],
{
    let len = value.unicode_len();
    let mut norm = String::new();
    let mut i: usize = 0;
    proof {
        assert(norm@ =~= value@.subrange(0, 0).map_values(|c: char| norm_sep_char(c)));
    }
    while i < len
        invariant
            0 <= i <= len,
            norm@ == value@.subrange(0, i as int).map_values(|c: char| norm_sep_char(c)),
        decreases len - i,
    {
        let c = value.get_char(i);
        if is_cfg_sep_exec(c) {
            norm.append(",");
        } else {
            norm.append(value.substring_char(i, i + 1));
        }
        proof {
            reveal_strlit(",");
            assert(norm@ =~= value@.subrange(0, i as int + 1).map_values(
                |c: char| norm_sep_char(c),
            ));
        }
        i += 1;
    }
    proof {
        assert(value@.subrange(0, len as int) =~= value@);
    }
    let parts = split_char(norm.as_str(), ',');
    let ghost pv = split_spec(value@.map_values(|c: char| norm_sep_char(c)), ',');
    let mut out: Vec<String> = Vec::new();
    let n = parts.len();
    let mut j: usize = 0;
    proof {
        assert(pv.subrange(0, 0) =~= Seq::<Seq<char>>::empty());
    }
    while j < n
        invariant
            0 <= j <= n,
            out@.len() == nonempty_segments(pv.subrange(0, j as int)).len(),
            forall|k: int|
                0 <= k < out@.len() ==> out@[k]@ == nonempty_segments(pv.subrange(0, j as int))[k],
        decreases n - j,
    {
        proof {
            lemma_nonempty_segments_step(pv, j as int);
        }
        if !parts[j].as_str().is_empty() {
            let v = parts[j].clone();
            out.push(v);
        }
        j += 1;
    }
    proof {
        assert(pv.subrange(0, n as int) =~= pv);
    }
    out
}

// ---------------------------------------------------------------------------
// Scraping the service name
// ---------------------------------------------------------------------------

/// The characters a scraped service name may contain.
pub open spec fn is_svc_char(c: char) -> bool {
    crate::namer::is_ident_char(c) || c == '$'
}

/// `i` is the first position where `p` occurs in `s`.
pub open spec fn first_occurrence(s: Seq<char>, p: Seq<char>, i: int) -> bool {
    &&& 0 <= i
    &&& i + p.len() <= s.len()
    &&& s.subrange(i, i + p.len()) == p
    &&& forall|j: int| 0 <= j < i ==> #[trigger] s.subrange(j, j + p.len()) != p
}

fn is_svc_char_exec(c: char) -> (r: bool)
    ensures
        r == is_svc_char(c),
{
    let v = c as u32;
    (48 <= v && v <= 57) || (65 <= v && v <= 90) || (97 <= v && v <= 122) || c == '-' || c == '_'
        || c == '$'
}

/// Scrapes the installed service's name out of the vendor tool's output:
/// the run of name characters starting at the first occurrence of the
/// service-name prefix, if the prefix occurs at all.
#[verifier::loop_isolation(false)]
pub fn extract_service_name_from_output(output: &str) -> (r: Option<String>)
    ensures
        r is Some <==> contains_sub(output@, "WireGuardTunnel$"@),
        r is Some ==> has_prefix(r.unwrap()@, "WireGuardTunnel$"@),
        r is Some ==> exists|i: int, j: int|
            first_occurrence(output@, "WireGuardTunnel$"@, i) && i <= j <= output@.len()
                && r.unwrap()@ == #[trigger] output@.subrange(i, j) && (forall|k: int|
                i <= k < j ==> is_svc_char(#[trigger] output@[k])) && (j == output@.len()
                || !is_svc_char(output@[j])),
{
    let sl = output.unicode_len();
    let p = "WireGuardTunnel$";
    let pl = p.unicode_len();
    proof {
        reveal_strlit("WireGuardTunnel$");
    }
    if pl > sl {
        return None;
    }
    let mut i: usize = 0;
    while i <= sl - pl
        invariant
            0 <= i,
            i <= sl - pl + 1,
            sl == output@.len(),
            pl == "WireGuardTunnel$"@.len(),
            pl <= sl,
            forall|j: int|
                0 <= j < i ==> #[trigger] output@.subrange(j, j + "WireGuardTunnel$"@.len() as int)
                    != "WireGuardTunnel$"@,
        decreases sl - i,
    {
        let mut k: usize = 0;
        let mut matched = true;
        while k < pl
            invariant
                0 <= k <= pl,
                i + pl <= sl,
                matched ==> forall|m: int| 0 <= m < k ==> output@[i + m] == "WireGuardTunnel$"@[m],
                !matched ==> output@.subrange(i as int, i as int + pl as int)
                    != "WireGuardTunnel$"@,
            decreases pl - k,
        {
            if output.get_char(i + k) != p.get_char(k) {
                proof {
                    assert(output@.subrange(i as int, i as int + pl as int)[k as int] == output@[
                        i + k as int
                    ]);
                }
                matched = false;
                k = pl;
            } else {
                k += 1;
            }
        }
        if matched {
            proof {
                assert(output@.subrange(i as int, i as int + pl as int) =~= "WireGuardTunnel$"@);
                assert(first_occurrence(output@, "WireGuardTunnel$"@, i as int));
            }
            let mut j: usize = i;
            while j < sl && is_svc_char_exec(output.get_char(j))
                invariant
                    i <= j <= sl,
                    forall|m: int| i <= m < j ==> is_svc_char(#[trigger] output@[m]),
                decreases sl - j,
            {
                j += 1;
            }
            let name = output.substring_char(i, j).to_owned();
            proof {
                let pv = "WireGuardTunnel$"@;
                assert forall|m: int| 0 <= m < pv.len() implies is_svc_char(pv[m]) by {
                }
                assert(j >= i + pl) by {
                    if j < i + pl {
                        assert(output@[j as int] == pv[j - i]);
                    }
                }
                assert(name@.subrange(0, pv.len() as int) =~= output@.subrange(
                    i as int,
                    i as int + pv.len() as int,
                ));
            }
            return Some(name);
        }
        i += 1;
    }
    None
}

// ---------------------------------------------------------------------------
// Uninstall attempts
// ---------------------------------------------------------------------------

/// A sequence with its later duplicates dropped: each value keeps only its
/// first occurrence.
pub open spec fn first_occ_filter(s: Seq<Seq<char>>) -> Seq<Seq<char>>
    decreases s.len(),
{
    if s.len() == 0 {
        Seq::<Seq<char>>::empty()
    } else {
        let rest = first_occ_filter(s.drop_last());
        if exists|j: int| 0 <= j < s.len() - 1 && #[trigger] s[j] == s.last() {
            rest
        } else {
            rest.push(s.last())
        }
    }
}

/// The candidate targets for uninstalling a tunnel service, in the order
/// they are tried: the service name; the configuration file path where one
/// is known, else the interface name; and the prefixed service name derived
/// from the interface, where it differs from the service name.
pub open spec fn uninstall_candidates(
    service_name: Seq<char>,
    interface_name: Seq<char>,
    config_path: Option<Seq<char>>,
) -> Seq<Seq<char>> {
    let base = seq![service_name] + (match config_path {
        Option::Some(p) => seq![p],
        Option::None => seq![interface_name],
    });
    let prefixed = "WireGuardTunnel$"@ + interface_name;
    if prefixed != service_name {
        base.push(prefixed)
    } else {
        base
    }
}

proof fn lemma_first_occ_filter_step(s: Seq<Seq<char>>, i: int)
    requires
        0 <= i < s.len(),
    ensures
        first_occ_filter(s.subrange(0, i + 1)) == (if exists|j: int|
            0 <= j < i && #[trigger] s[j] == s[i] {
            first_occ_filter(s.subrange(0, i))
        } else {
            first_occ_filter(s.subrange(0, i)).push(s[i])
        }),
{
    let t = s.subrange(0, i + 1);
    assert(t.drop_last() =~= s.subrange(0, i));
    assert(t.last() == s[i]);
    if exists|j: int| 0 <= j < t.len() - 1 && #[trigger] t[j] == t.last() {
        let j = choose|j: int| 0 <= j < t.len() - 1 && #[trigger] t[j] == t.last();
        assert(s[j] == s[i]);
    } else {
        assert forall|j: int| 0 <= j < i implies #[trigger] s[j] != s[i] by {
            assert(t[j] == s[j]);
        }
    }
}

fn seen_before(items: &Vec<String>, upto: usize, v: &str) -> (r: bool)
    requires
        upto <= items@.len(),
    ensures
        r == exists|j: int| 0 <= j < upto && #[trigger] items@[j]@ == v@,
{
    let mut j: usize = 0;
    while j < upto
        invariant
            0 <= j <= upto,
            upto <= items@.len(),
            forall|k: int| 0 <= k < j ==> #[trigger] items@[k]@ != v@,
        decreases upto - j,
    {
        if str_eq(items[j].as_str(), v) {
            return true;
        }
        j += 1;
    }
    false
}

/// Builds the ordered uninstall attempts, duplicates removed but order
/// kept.
#[verifier::loop_isolation(false)]
pub fn build_uninstall_attempts(
    service_name: &str,
    interface_name: &str,
    config_path: Option<&String>,
) -> (r: Vec<String>)
    ensures
        ({
            let cands = uninstall_candidates(
                service_name@,
                interface_name@,
                match config_path {
                    Option::Some(p) => Option::Some(p@),
                    Option::None => Option::None,
                },
            );
            r@.len() == first_occ_filter(cands).len() && (forall|i: int|
                0 <= i < r@.len() ==> r@[i]@ == first_occ_filter(cands)[i])
        }),
{
    let mut cands: Vec<String> = Vec::new();
    cands.push(service_name.to_owned());
    match config_path {
        Some(p) => {
            cands.push(p.clone());
        },
        None => {
            cands.push(interface_name.to_owned());
        },
    }
    let mut prefixed = "WireGuardTunnel$".to_owned();
    prefixed.append(interface_name);
    let differs = !str_eq(prefixed.as_str(), service_name);
    if differs {
        cands.push(prefixed);
    }
    let ghost cv = uninstall_candidates(
        service_name@,
        interface_name@,
        match config_path {
            Option::Some(p) => Option::Some(p@),
            Option::None => Option::None,
        },
    );
    proof {
        assert(cands@.len() == cv.len());
        assert(forall|i: int| 0 <= i < cands@.len() ==> cands@[i]@ == cv[i]);
    }
    let mut out: Vec<String> = Vec::new();
    let n = cands.len();
    let mut i: usize = 0;
    proof {
        assert(cv.subrange(0, 0) =~= Seq::<Seq<char>>::empty());
    }
    while i < n
        invariant
            0 <= i <= n,
            n == cands@.len(),
            cands@.len() == cv.len(),
            forall|k: int| 0 <= k < cands@.len() ==> #[trigger] cands@[k]@ == cv[k],
            out@.len() == first_occ_filter(cv.subrange(0, i as int)).len(),
            forall|k: int|
                0 <= k < out@.len() ==> out@[k]@ == first_occ_filter(cv.subrange(0, i as int))[k],
        decreases n - i,
    {
        proof {
            lemma_first_occ_filter_step(cv, i as int);
        }
        let dup = seen_before(&cands, i, cands[i].as_str());
        proof {
            if dup {
                let j = choose|j: int| 0 <= j < i && #[trigger] cands@[j]@ == cands@[i as int]@;
                assert(cv[j] == cv[i as int]);
            } else {
                assert forall|j: int| 0 <= j < i implies #[trigger] cv[j] != cv[i as int] by {
                    assert(cands@[j]@ == cv[j]);
                }
            }
        }
        if !dup {
            out.push(cands[i].clone());
        }
        i += 1;
    }
    proof {
        assert(cv.subrange(0, n as int) =~= cv);
    }
    out
}

/// Reads the vendor tool's uninstall output: an empty message or one
/// containing "not found" means the service is already gone, which counts
/// as success. The tool may phrase the same verdict in the system language;
/// mapping such spellings to this one is the calling shell's job, since
/// this crate's sources keep to ASCII.
pub fn uninstall_output_means_gone(msg: &str) -> (r: bool)
    ensures
        r == (msg@.len() == 0 || contains_sub(msg@, "not found"@)),
{
    if msg.is_empty() {
        true
    } else {
        str_contains_sub(msg, "not found")
    }
}

// ---------------------------------------------------------------------------
// The vendor configuration dialect
// ---------------------------------------------------------------------------

/// Entries of a list, each trimmed, empties dropped.
pub open spec fn trimmed_nonempty_views(items: Seq<String>) -> Seq<Seq<char>>
    decreases items.len(),
{
    if items.len() == 0 {
        Seq::<Seq<char>>::empty()
    } else {
        let rest = trimmed_nonempty_views(items.drop_last());
        if trim_spec(items.last()@).len() > 0 {
            rest.push(trim_spec(items.last()@))
        } else {
            rest
        }
    }
}

/// Parts joined with a comma and a space.
pub open spec fn join_comma_space(parts: Seq<Seq<char>>) -> Seq<char>
    decreases parts.len(),
{
    if parts.len() == 0 {
        Seq::<char>::empty()
    } else if parts.len() == 1 {
        parts[0]
    } else {
        join_comma_space(parts.drop_last()) + ", "@ + parts.last()
    }
}

/// Lines joined with a carriage return and newline between them.
pub open spec fn join_crlf(lines: Seq<Seq<char>>) -> Seq<char>
    decreases lines.len(),
{
    if lines.len() == 0 {
        Seq::<char>::empty()
    } else if lines.len() == 1 {
        lines[0]
    } else {
        join_crlf(lines.drop_last()) + "\r\n"@ + lines.last()
    }
}

pub open spec fn ini_address_lines(tc: TunnelConfig) -> Seq<Seq<char>> {
    Seq::new(cfg_values_spec(tc.address@).len(), |i: int| "Address = "@ + cfg_values_spec(
        tc.address@,
    )[i])
}

pub open spec fn ini_port_lines(ic: InterfaceConfig) -> Seq<Seq<char>> {
    match ic.listen_port {
        Option::Some(p) => seq!["ListenPort = "@ + dec_of(p as nat)],
        Option::None => Seq::<Seq<char>>::empty(),
    }
}

pub open spec fn ini_dns_lines(tc: TunnelConfig) -> Seq<Seq<char>> {
    if trim_spec(tc.dns@).len() > 0 {
        Seq::new(cfg_values_spec(tc.dns@).len(), |i: int| "DNS = "@ + cfg_values_spec(tc.dns@)[i])
    } else {
        Seq::<Seq<char>>::empty()
    }
}

pub open spec fn ini_mtu_lines(tc: TunnelConfig) -> Seq<Seq<char>> {
    if trim_spec(tc.mtu@).len() > 0 {
        seq!["MTU = "@ + trim_spec(tc.mtu@)]
    } else {
        Seq::<Seq<char>>::empty()
    }
}

/// The `[Interface]` section of the rendered configuration file.
pub open spec fn ini_interface_section(tc: TunnelConfig, ic: InterfaceConfig) -> Seq<Seq<char>> {
    seq!["[Interface]"@, "PrivateKey = "@ + trim_spec(ic.private_key@)] + ini_address_lines(tc)
        + ini_port_lines(ic) + ini_dns_lines(tc) + ini_mtu_lines(tc) + seq![Seq::<char>::empty()]
}

pub open spec fn ini_psk_lines(p: PeerConfig) -> Seq<Seq<char>> {
    match p.preshared_key {
        Option::Some(k) => if trim_spec(k@).len() > 0 {
            seq!["PresharedKey = "@ + trim_spec(k@)]
        } else {
            Seq::<Seq<char>>::empty()
        },
        Option::None => Seq::<Seq<char>>::empty(),
    }
}

pub open spec fn ini_endpoint_lines(p: PeerConfig) -> Seq<Seq<char>> {
    match p.endpoint {
        Option::Some(e) => if trim_spec(e@).len() > 0 {
            seq!["Endpoint = "@ + trim_spec(e@)]
        } else {
            Seq::<Seq<char>>::empty()
        },
        Option::None => Seq::<Seq<char>>::empty(),
    }
}

pub open spec fn ini_allowed_lines(p: PeerConfig) -> Seq<Seq<char>> {
    let joined = join_comma_space(trimmed_nonempty_views(p.allowed_ips@));
    if p.allowed_ips@.len() > 0 && joined.len() > 0 {
        seq!["AllowedIPs = "@ + joined]
    } else {
        Seq::<Seq<char>>::empty()
    }
}

pub open spec fn ini_keepalive_lines(p: PeerConfig) -> Seq<Seq<char>> {
    match p.persistent_keepalive {
        Option::Some(k) => seq!["PersistentKeepalive = "@ + dec_of(k as nat)],
        Option::None => Seq::<Seq<char>>::empty(),
    }
}

/// One `[Peer]` section.
pub open spec fn ini_peer_section(p: PeerConfig) -> Seq<Seq<char>> {
    seq!["[Peer]"@, "PublicKey = "@ + trim_spec(p.public_key@)] + ini_psk_lines(p)
        + ini_endpoint_lines(p) + ini_allowed_lines(p) + ini_keepalive_lines(p) + seq![
        Seq::<char>::empty(),
    ]
}

pub open spec fn ini_peer_sections(peers: Seq<PeerConfig>, n: int) -> Seq<Seq<char>>
    decreases n,
{
    if n <= 0 {
        Seq::<Seq<char>>::empty()
    } else {
        ini_peer_sections(peers, n - 1) + ini_peer_section(peers[n - 1])
    }
}

/// The whole rendered configuration as lines.
pub open spec fn win_config_lines(tc: TunnelConfig, ic: InterfaceConfig) -> Seq<Seq<char>> {
    ini_interface_section(tc, ic) + ini_peer_sections(ic.peers@, ic.peers@.len() as int)
}

proof fn lemma_trimmed_views_step(items: Seq<String>, i: int)
    requires
        0 <= i < items.len(),
    ensures
        trimmed_nonempty_views(items.subrange(0, i + 1)) == (if trim_spec(items[i]@).len() > 0 {
            trimmed_nonempty_views(items.subrange(0, i)).push(trim_spec(items[i]@))
        } else {
            trimmed_nonempty_views(items.subrange(0, i))
        }),
{
    let t = items.subrange(0, i + 1);
    assert(t.drop_last() =~= items.subrange(0, i));
    assert(t.last() == items[i]);
}

proof fn lemma_join_cs_step(parts: Seq<Seq<char>>, i: int)
    requires
        1 <= i < parts.len(),
    ensures
        join_comma_space(parts.subrange(0, i + 1)) == join_comma_space(parts.subrange(0, i))
            + ", "@ + parts[i],
{
    let t = parts.subrange(0, i + 1);
    assert(t.drop_last() =~= parts.subrange(0, i));
    assert(t.last() == parts[i]);
}

/// Joins trimmed non-empty entries with `", "`.
#[verifier::loop_isolation(false)]
fn join_trimmed_entries(items: &Vec<String>) -> (r: String)
    ensures
        r@ == join_comma_space(trimmed_nonempty_views(items@)),
{
    let mut kept: Vec<String> = Vec::new();
    let n = items.len();
    let mut i: usize = 0;
    proof {
        assert(items@.subrange(0, 0) =~= Seq::<String>::empty());
    }
    while i < n
        invariant
            0 <= i <= n,
            kept@.len() == trimmed_nonempty_views(items@.subrange(0, i as int)).len(),
            forall|k: int|
                0 <= k < kept@.len() ==> kept@[k]@ == trimmed_nonempty_views(
                    items@.subrange(0, i as int),
                )[k],
        decreases n - i,
    {
        proof {
            lemma_trimmed_views_step(items@, i as int);
        }
        let t = crate::text::trim_str(items[i].as_str());
        if !t.as_str().is_empty() {
            kept.push(t);
        }
        i += 1;
    }
    proof {
        assert(items@.subrange(0, n as int) =~= items@);
    }
    let ghost parts = trimmed_nonempty_views(items@);
    let mut out = String::new();
    let m = kept.len();
    let mut j: usize = 0;
    proof {
        assert(parts.subrange(0, 0) =~= Seq::<Seq<char>>::empty());
    }
    while j < m
        invariant
            0 <= j <= m,
            m == kept@.len(),
            kept@.len() == parts.len(),
            forall|k: int| 0 <= k < kept@.len() ==> #[trigger] kept@[k]@ == parts[k],
            out@ == join_comma_space(parts.subrange(0, j as int)),
        decreases m - j,
    {
        if j > 0 {
            out.append(", ");
            proof {
                lemma_join_cs_step(parts, j as int);
            }
        } else {
            proof {
                assert(parts.subrange(0, 1).len() == 1);
                assert(parts.subrange(0, 1)[0] == parts[0]);
            }
        }
        out.append(kept[j].as_str());
        proof {
            reveal_strlit(", ");
            assert(out@ =~= join_comma_space(parts.subrange(0, j as int + 1)));
        }
        j += 1;
    }
    proof {
        assert(parts.subrange(0, m as int) =~= parts);
    }
    out
}

/// Appends one peer's `[Peer]` section.
#[verifier::loop_isolation(false)]
#[verifier::rlimit(60)]
fn append_peer_section(lines: &mut Vec<String>, p: &PeerConfig)
    ensures
        line_views(final(lines)@) == line_views(old(lines)@) + ini_peer_section(*p),
{
    let ghost v0 = line_views(lines@);
    push_line(lines, "[Peer]");
    let pk = crate::text::trim_str(p.public_key.as_str());
    push_kv(lines, "PublicKey = ", pk.as_str());
    proof {
        assert(line_views(lines@) =~= v0 + seq!["[Peer]"@, "PublicKey = "@ + trim_spec(
            p.public_key@,
        )]);
    }
    let ghost v1 = line_views(lines@);
    match &p.preshared_key {
        Some(k) => {
            let t = crate::text::trim_str(k.as_str());
            if !t.as_str().is_empty() {
                push_kv(lines, "PresharedKey = ", t.as_str());
            }
        },
        None => {},
    }
    proof {
        assert(line_views(lines@) =~= v1 + ini_psk_lines(*p));
    }
    let ghost v2 = line_views(lines@);
    match &p.endpoint {
        Some(e) => {
            let t = crate::text::trim_str(e.as_str());
            if !t.as_str().is_empty() {
                push_kv(lines, "Endpoint = ", t.as_str());
            }
        },
        None => {},
    }
    proof {
        assert(line_views(lines@) =~= v2 + ini_endpoint_lines(*p));
    }
    let ghost v3 = line_views(lines@);
    if p.allowed_ips.len() > 0 {
        let ips = join_trimmed_entries(&p.allowed_ips);
        if !ips.as_str().is_empty() {
            push_kv(lines, "AllowedIPs = ", ips.as_str());
        }
    }
    proof {
        assert(line_views(lines@) =~= v3 + ini_allowed_lines(*p));
    }
    let ghost v4 = line_views(lines@);
    if let Some(k) = p.persistent_keepalive {
        push_kv_u64(lines, "PersistentKeepalive = ", k as u64);
    }
    push_line(lines, "");
    proof {
        reveal_strlit("");
        assert(""@ =~= Seq::<char>::empty());
        assert(line_views(lines@) =~= v4 + ini_keepalive_lines(*p) + seq![Seq::<char>::empty()]);
        assert(line_views(lines@) =~= v0 + ini_peer_section(*p));
    }
}

/// Renders lines with CRLF separators between them, as the vendor platform
/// expects.
#[verifier::loop_isolation(false)]
fn render_crlf(lines: &Vec<String>) -> (r: String)
    ensures
        r@ == join_crlf(line_views(lines@)),
{
    let mut out = String::new();
    let n = lines.len();
    let mut i: usize = 0;
    let ghost lv = line_views(lines@);
    proof {
        assert(lv.subrange(0, 0) =~= Seq::<Seq<char>>::empty());
    }
    while i < n
        invariant
            0 <= i <= n,
            out@ == join_crlf(lv.subrange(0, i as int)),
        decreases n - i,
    {
        if i > 0 {
            out.append("\r\n");
            proof {
                let t = lv.subrange(0, i as int + 1);
                assert(t.drop_last() =~= lv.subrange(0, i as int));
                assert(t.last() == lv[i as int]);
            }
        } else {
            proof {
                assert(lv.subrange(0, 1).len() == 1);
                assert(lv.subrange(0, 1)[0] == lv[0]);
            }
        }
        out.append(lines[i].as_str());
        proof {
            reveal_strlit("\r\n");
            assert(out@ =~= join_crlf(lv.subrange(0, i as int + 1)));
        }
        i += 1;
    }
    proof {
        assert(lv.subrange(0, n as int) =~= lv);
    }
    out
}

/// Renders the declarative configuration file the vendor tool installs:
/// the interface section from the stored definition and runtime
/// configuration, then one section per peer, CRLF-separated.
#[verifier::loop_isolation(false)]
#[verifier::rlimit(60)]
pub fn build_windows_config_content(
    tunnel_config: &TunnelConfig,
    interface_config: &InterfaceConfig,
) -> (r: String)
    ensures
        r@ == join_crlf(win_config_lines(*tunnel_config, *interface_config)),
{
    let mut lines: Vec<String> = Vec::new();
    push_line(&mut lines, "[Interface]");
    let pk = crate::text::trim_str(interface_config.private_key.as_str());
    push_kv(&mut lines, "PrivateKey = ", pk.as_str());
    proof {
        assert(line_views(lines@) =~= seq!["[Interface]"@, "PrivateKey = "@ + trim_spec(
            interface_config.private_key@,
        )]);
    }
    let ghost v1 = line_views(lines@);
    let addrs = split_config_values(tunnel_config.address.as_str());
    let na = addrs.len();
    let mut a: usize = 0;
    while a < na
        invariant
            0 <= a <= na,
            na == cfg_values_spec(tunnel_config.address@).len(),
            line_views(lines@).len() == v1.len() + a,
            forall|k: int| 0 <= k < v1.len() ==> line_views(lines@)[k] == v1[k],
            forall|k: int|
                0 <= k < a ==> line_views(lines@)[v1.len() + k] == "Address = "@
                    + cfg_values_spec(tunnel_config.address@)[k],
        decreases na - a,
    {
        push_kv(&mut lines, "Address = ", addrs[a].as_str());
        a += 1;
    }
    proof {
        assert(line_views(lines@) =~= v1 + ini_address_lines(*tunnel_config));
    }
    let ghost v2 = line_views(lines@);
    if let Some(port) = interface_config.listen_port {
        push_kv_u64(&mut lines, "ListenPort = ", port as u64);
    }
    proof {
        assert(line_views(lines@) =~= v2 + ini_port_lines(*interface_config));
    }
    let ghost v3 = line_views(lines@);
    let dns_t = crate::text::trim_str(tunnel_config.dns.as_str());
    if !dns_t.as_str().is_empty() {
        let entries = split_config_values(tunnel_config.dns.as_str());
        let nd = entries.len();
        let mut d: usize = 0;
        while d < nd
            invariant
                0 <= d <= nd,
                nd == cfg_values_spec(tunnel_config.dns@).len(),
                line_views(lines@).len() == v3.len() + d,
                forall|k: int| 0 <= k < v3.len() ==> line_views(lines@)[k] == v3[k],
                forall|k: int|
                    0 <= k < d ==> line_views(lines@)[v3.len() + k] == "DNS = "@
                        + cfg_values_spec(tunnel_config.dns@)[k],
            decreases nd - d,
        {
            push_kv(&mut lines, "DNS = ", entries[d].as_str());
            d += 1;
        }
    }
    proof {
        assert(line_views(lines@) =~= v3 + ini_dns_lines(*tunnel_config));
    }
    let ghost v4 = line_views(lines@);
    let mtu_t = crate::text::trim_str(tunnel_config.mtu.as_str());
    if !mtu_t.as_str().is_empty() {
        push_kv(&mut lines, "MTU = ", mtu_t.as_str());
    }
    push_line(&mut lines, "");
    proof {
        reveal_strlit("");
        assert(""@ =~= Seq::<char>::empty());
        assert(line_views(lines@) =~= v4 + ini_mtu_lines(*tunnel_config) + seq![
            Seq::<char>::empty(),
        ]);
        assert(line_views(lines@) =~= ini_interface_section(*tunnel_config, *interface_config));
    }
    let n = interface_config.peers.len();
    let mut i: usize = 0;
    while i < n
        invariant
            0 <= i <= n,
            line_views(lines@) == ini_interface_section(*tunnel_config, *interface_config)
                + ini_peer_sections(interface_config.peers@, i as int),
        decreases n - i,
    {
        append_peer_section(&mut lines, &interface_config.peers[i]);
        proof {
            assert(line_views(lines@) =~= ini_interface_section(*tunnel_config, *interface_config)
                + ini_peer_sections(interface_config.peers@, i as int + 1));
        }
        i += 1;
    }
    render_crlf(&lines)
}

// ---------------------------------------------------------------------------
// Case-insensitive readings of tool output
// ---------------------------------------------------------------------------

/// ASCII lowercasing of one character.
pub open spec fn lower_char(c: char) -> char {
    if c == 'A' {
        'a'
    } else if c == 'B' {
        'b'
    } else if c == 'C' {
        'c'
    } else if c == 'D' {
        'd'
    } else if c == 'E' {
        'e'
    } else if c == 'F' {
        'f'
    } else if c == 'G' {
        'g'
    } else if c == 'H' {
        'h'
    } else if c == 'I' {
        'i'
    } else if c == 'J' {
        'j'
    } else if c == 'K' {
        'k'
    } else if c == 'L' {
        'l'
    } else if c == 'M' {
        'm'
    } else if c == 'N' {
        'n'
    } else if c == 'O' {
        'o'
    } else if c == 'P' {
        'p'
    } else if c == 'Q' {
        'q'
    } else if c == 'R' {
        'r'
    } else if c == 'S' {
        's'
    } else if c == 'T' {
        't'
    } else if c == 'U' {
        'u'
    } else if c == 'V' {
        'v'
    } else if c == 'W' {
        'w'
    } else if c == 'X' {
        'x'
    } else if c == 'Y' {
        'y'
    } else if c == 'Z' {
        'z'
    } else {
        c
    }
}

fn lower_char_exec(c: char) -> (r: char)
    ensures
        r == lower_char(c),
{
    match c {
        'A' => 'a',
        'B' => 'b',
        'C' => 'c',
        'D' => 'd',
        'E' => 'e',
        'F' => 'f',
        'G' => 'g',
        'H' => 'h',
        'I' => 'i',
        'J' => 'j',
        'K' => 'k',
        'L' => 'l',
        'M' => 'm',
        'N' => 'n',
        'O' => 'o',
        'P' => 'p',
        'Q' => 'q',
        'R' => 'r',
        'S' => 's',
        'T' => 't',
        'U' => 'u',
        'V' => 'v',
        'W' => 'w',
        'X' => 'x',
        'Y' => 'y',
        'Z' => 'z',
        other => other,
    }
}

pub open spec fn lower_seq(s: Seq<char>) -> Seq<char> {
    s.map_values(|c: char| lower_char(c))
}

/// Whether `p` occurs in `s`, compared after ASCII lowercasing of both.
pub open spec fn contains_sub_nocase(s: Seq<char>, p: Seq<char>) -> bool {
    contains_sub(lower_seq(s), lower_seq(p))
}

fn matches_at_nocase(s: &str, p: &str, at: usize) -> (r: bool)
    requires
        at + p@.len() <= s@.len(),
    ensures
        r == (lower_seq(s@).subrange(at as int, at as int + p@.len() as int) == lower_seq(p@)),
{
    let sl = s.unicode_len();
    let pl = p.unicode_len();
    let mut k: usize = 0;
    while k < pl
        invariant
            0 <= k <= pl,
            pl == p@.len(),
            sl == s@.len(),
            at + pl <= sl,
            forall|j: int| 0 <= j < k ==> lower_char(s@[at + j]) == lower_char(p@[j]),
        decreases pl - k,
    {
        if lower_char_exec(s.get_char(at + k)) != lower_char_exec(p.get_char(k)) {
            proof {
                assert(lower_seq(s@).subrange(at as int, at as int + p@.len() as int)[k as int]
                    == lower_char(s@[at + k as int]));
                assert(lower_seq(p@)[k as int] == lower_char(p@[k as int]));
            }
            return false;
        }
        k += 1;
    }
    proof {
        assert(lower_seq(s@).subrange(at as int, at as int + p@.len() as int) =~= lower_seq(p@));
    }
    true
}

/// Case-insensitive substring search over tool output.
pub fn str_contains_sub_nocase(s: &str, p: &str) -> (r: bool)
    ensures
        r == contains_sub_nocase(s@, p@),
{
    let sl = s.unicode_len();
    let pl = p.unicode_len();
    if pl > sl {
        return false;
    }
    if pl == 0 {
        proof {
            assert(lower_seq(s@).subrange(0, 0 + lower_seq(p@).len() as int) =~= lower_seq(p@));
        }
        return true;
    }
    let mut i: usize = 0;
    while i <= sl - pl
        invariant
            0 <= i,
            i <= sl - pl + 1,
            sl == s@.len(),
            pl == p@.len(),
            1 <= pl <= sl,
            forall|j: int|
                0 <= j < i ==> #[trigger] lower_seq(s@).subrange(j, j + lower_seq(p@).len() as int)
                    != lower_seq(p@),
        decreases sl - i,
    {
        if matches_at_nocase(s, p, i) {
            proof {
                assert(lower_seq(s@).subrange(i as int, i as int + lower_seq(p@).len() as int)
                    == lower_seq(p@));
            }
            return true;
        }
        i += 1;
    }
    false
}

/// Reads the elevation check's group listing: the caller is elevated when
/// the administrators group identifier appears and the text reports it
/// enabled, in any letter case.
pub fn groups_output_indicates_admin(text: &str) -> (r: bool)
    ensures
        r == (contains_sub(text@, "S-1-5-32-544"@) && contains_sub_nocase(text@, "enabled"@)),
{
    if str_contains_sub(text, "S-1-5-32-544") {
        str_contains_sub_nocase(text, "enabled")
    } else {
        false
    }
}

/// `[i, j)` is a whitespace-delimited token of `s`.
pub open spec fn is_token(s: Seq<char>, i: int, j: int) -> bool {
    &&& 0 <= i < j <= s.len()
    &&& (forall|k: int| i <= k < j ==> !is_ascii_ws(#[trigger] s[k]))
    &&& (i == 0 || is_ascii_ws(s[i - 1]))
    &&& (j == s.len() || is_ascii_ws(s[j]))
}

/// Whether the tool's interface listing names `name`: some whitespace
/// -delimited token equals it, compared without regard to ASCII case.
pub open spec fn listing_names_interface(out: Seq<char>, name: Seq<char>) -> bool {
    exists|i: int, j: int| is_token(out, i, j) && lower_seq(#[trigger] out.subrange(i, j))
        == lower_seq(name)
}

fn is_ws_at(s: &str, i: usize) -> (r: bool)
    requires
        i < s@.len(),
    ensures
        r == is_ascii_ws(s@[i as int]),
{
    let c = s.get_char(i);
    c == ' ' || c == '\t' || c == '\n' || c == '\r'
}

/// Scans the tool's interface listing for `name` among its
/// whitespace-delimited tokens, ignoring ASCII case.
#[verifier::loop_isolation(false)]
pub fn interface_listed(output: &str, name: &str) -> (r: bool)
    ensures
        r == listing_names_interface(output@, name@),
{
    let sl = output.unicode_len();
    let mut i: usize = 0;
    while i < sl
        invariant
            0 <= i <= sl,
            forall|a: int, b: int|
                is_token(output@, a, b) && a < i ==> lower_seq(#[trigger] output@.subrange(a, b))
                    != lower_seq(name@),
            i < sl && !is_ascii_ws(output@[i as int]) ==> i == 0 || is_ascii_ws(
                output@[i as int - 1],
            ),
        decreases sl - i,
    {
        if is_ws_at(output, i) {
            i += 1;
        } else {
            let mut j: usize = i;
            while j < sl && !is_ws_at(output, j)
                invariant
                    i <= j <= sl,
                    forall|k: int| i <= k < j ==> !is_ascii_ws(#[trigger] output@[k]),
                decreases sl - j,
            {
                j += 1;
            }
            proof {
                assert(is_token(output@, i as int, j as int));
            }
            let tok = output.substring_char(i, j);
            let mut same = tok.unicode_len() == name.unicode_len();
            if same {
                let nl = name.unicode_len();
                let mut k: usize = 0;
                while k < nl && same
                    invariant
                        0 <= k <= nl,
                        nl == name@.len(),
                        tok@.len() == nl,
                        tok@ == output@.subrange(i as int, j as int),
                        same ==> forall|m: int|
                            0 <= m < k ==> lower_char(tok@[m]) == lower_char(name@[m]),
                        !same ==> lower_seq(tok@) != lower_seq(name@),
                    decreases nl - k,
                {
                    if lower_char_exec(tok.get_char(k)) != lower_char_exec(name.get_char(k)) {
                        proof {
                            assert(lower_seq(tok@)[k as int] == lower_char(tok@[k as int]));
                            assert(lower_seq(name@)[k as int] == lower_char(name@[k as int]));
                        }
                        same = false;
                        break ;
                    }
                    k += 1;
                }
                if same {
                    proof {
                        assert(lower_seq(tok@) =~= lower_seq(name@));
                        assert(lower_seq(output@.subrange(i as int, j as int)) == lower_seq(
                            name@,
                        ));
                    }
                    return true;
                }
            } else {
                proof {
                    assert(lower_seq(tok@).len() != lower_seq(name@).len());
                }
            }
            proof {
                assert forall|a: int, b: int|
                    is_token(output@, a, b) && a < j as int implies lower_seq(
                    #[trigger] output@.subrange(a, b),
                ) != lower_seq(name@) by {
                    if a >= i {
                        assert(a == i) by {
                            if a > i {
                                assert(is_ascii_ws(output@[a - 1]));
                            }
                        }
                        assert(b == j) by {
                            if b < j {
                                assert(is_ascii_ws(output@[b]));
                            }
                            if b > j {
                                assert(!is_ascii_ws(output@[j as int]));
                            }
                        }
                        assert(output@.subrange(a, b) == tok@);
                    }
                }
            }
            i = j;
        }
    }
    false
}

} // verus!
