//! Typed builders for the one-shot elevation scripts and related shell
//! fragments: one elevation prompt authorizes one composed script that
//! starts the engine, hands the control socket to the invoking user,
//! assigns the address, brings the interface up and installs routes.
//! Values are escaped through a single quoting discipline instead of ad-hoc
//! string concatenation, and the default routes are never installed.

use vstd::prelude::*;

use crate::text::all_dec_digits;
use crate::text::append_u64_dec;
use crate::text::dec_of;
use crate::text::dec_val;
use crate::text::split_char;
use crate::text::split_spec;
use crate::text::str_eq;
use crate::text::u64_to_dec;

verus! {

// ---------------------------------------------------------------------------
// Escaping
// ---------------------------------------------------------------------------

/// A value escaped for use inside single quotes: every quote becomes the
/// close-quote, escaped-quote, open-quote sequence.
pub open spec fn sq_escaped(s: Seq<char>) -> Seq<char>
    decreases s.len(),
{
    if s.len() == 0 {
        Seq::<char>::empty()
    } else {
        sq_escaped(s.drop_last()) + (if s.last() == '\'' {
            seq!['\'', '\\', '\'', '\'']
        } else {
            seq![s.last()]
        })
    }
}

/// An escaped value wrapped in single quotes.
pub open spec fn quoted(s: Seq<char>) -> Seq<char> {
    seq!['\''] + sq_escaped(s) + seq!['\'']
}

/// A script escaped for embedding in a double-quoted shell string: every
/// double quote gains a backslash.
pub open spec fn dq_escaped(s: Seq<char>) -> Seq<char>
    decreases s.len(),
{
    if s.len() == 0 {
        Seq::<char>::empty()
    } else {
        dq_escaped(s.drop_last()) + (if s.last() == '"' {
            seq!['\\', '"']
        } else {
            seq![s.last()]
        })
    }
}

proof fn lemma_sq_escaped_step(s: Seq<char>, i: int)
    requires
        0 <= i < s.len(),
    ensures
        sq_escaped(s.subrange(0, i + 1)) == sq_escaped(s.subrange(0, i)) + (if s[i] == '\'' {
            seq!['\'', '\\', '\'', '\'']
        } else {
            seq![s[i]]
        }),
{
    let t = s.subrange(0, i + 1);
    assert(t.drop_last() =~= s.subrange(0, i));
    assert(t.last() == s[i]);
}

proof fn lemma_dq_escaped_step(s: Seq<char>, i: int)
    requires
        0 <= i < s.len(),
    ensures
        dq_escaped(s.subrange(0, i + 1)) == dq_escaped(s.subrange(0, i)) + (if s[i] == '"' {
            seq!['\\', '"']
        } else {
            seq![s[i]]
        }),
{
    let t = s.subrange(0, i + 1);
    assert(t.drop_last() =~= s.subrange(0, i));
    assert(t.last() == s[i]);
}

/// Appends `v` with single quotes escaped.
#[verifier::loop_isolation(false)]
fn append_escaped(out: &mut String, v: &str)
    ensures
        final(out)@ == old(out)@ + sq_escaped(v@),
{
    let len = v.unicode_len();
    let mut i: usize = 0;
    proof {
        assert(old(out)@ + sq_escaped(v@.subrange(0, 0)) =~= old(out)@);
    }
    while i < len
        invariant
            0 <= i <= len,
            out@ == old(out)@ + sq_escaped(v@.subrange(0, i as int)),
        decreases len - i,
    {
        proof {
            lemma_sq_escaped_step(v@, i as int);
        }
        let c = v.get_char(i);
        if c == '\'' {
            out.append("'\\''");
            proof {
                reveal_strlit("'\\''");
                assert(out@ =~= old(out)@ + sq_escaped(v@.subrange(0, i as int + 1)));
            }
        } else {
            out.append(v.substring_char(i, i + 1));
            proof {
                assert(out@ =~= old(out)@ + sq_escaped(v@.subrange(0, i as int + 1)));
            }
        }
        i += 1;
    }
    proof {
        assert(v@.subrange(0, len as int) =~= v@);
    }
}

/// Appends `v` escaped and wrapped in single quotes.
fn append_quoted(out: &mut String, v: &str)
    ensures
        final(out)@ == old(out)@ + quoted(v@),
{
    out.append("'");
    append_escaped(out, v);
    out.append("'");
    proof {
        reveal_strlit("'");
        assert(out@ =~= old(out)@ + quoted(v@));
    }
}

/// Wraps a composed script into the elevation wrapper the desktop platform
/// runs: the script is embedded in a double-quoted shell string with its
/// double quotes escaped.
#[verifier::loop_isolation(false)]
pub fn build_elevation_wrapper(script: &str) -> (r: String)
    ensures
        r@ == "do shell script \""@ + dq_escaped(script@) + "\" with administrator privileges"@,
{
    let mut out = "do shell script \"".to_owned();
    let ghost base = out@;
    let len = script.unicode_len();
    let mut i: usize = 0;
    proof {
        assert(base + dq_escaped(script@.subrange(0, 0)) =~= base);
    }
    while i < len
        invariant
            0 <= i <= len,
            out@ == base + dq_escaped(script@.subrange(0, i as int)),
        decreases len - i,
    {
        proof {
            lemma_dq_escaped_step(script@, i as int);
        }
        let c = script.get_char(i);
        if c == '"' {
            out.append("\\\"");
            proof {
                reveal_strlit("\\\"");
                assert(out@ =~= base + dq_escaped(script@.subrange(0, i as int + 1)));
            }
        } else {
            out.append(script.substring_char(i, i + 1));
            proof {
                assert(out@ =~= base + dq_escaped(script@.subrange(0, i as int + 1)));
            }
        }
        i += 1;
    }
    proof {
        assert(script@.subrange(0, len as int) =~= script@);
    }
    out.append("\" with administrator privileges");
    out
}

// ---------------------------------------------------------------------------
// Routes and addresses
// ---------------------------------------------------------------------------

/// The default routes, which the scripts never install.
pub open spec fn is_default_route_spec(s: Seq<char>) -> bool {
    s == "0.0.0.0/0"@ || s == "::/0"@
}

pub fn is_default_route(s: &str) -> (r: bool)
    ensures
        r == is_default_route_spec(s@),
{
    if str_eq(s, "0.0.0.0/0") {
        true
    } else {
        str_eq(s, "::/0")
    }
}

/// How a CIDR string fails to split.
#[derive(Debug, PartialEq, Eq, Structural)]
pub enum CidrError {
    /// Not exactly one slash.
    Shape,
    /// The prefix length is not a decimal number in range.
    Prefix,
}

/// Splits an `address/prefix` string into its address text and prefix
/// length. The address part is handed on as text; only the shape and the
/// prefix number are decided here.
pub fn split_cidr(s: &str) -> (r: Result<(String, u8), CidrError>)
    ensures
        r is Ok <==> (split_spec(s@, '/').len() == 2 && ({
            let p = split_spec(s@, '/')[1];
            p.len() > 0 && all_dec_digits(p) && dec_val(p) <= u8::MAX
        })),
        r is Ok ==> r.unwrap().0@ == split_spec(s@, '/')[0] && r.unwrap().1 == dec_val(
            split_spec(s@, '/')[1],
        ),
        r is Err ==> r->Err_0 == (if split_spec(s@, '/').len() == 2 {
            CidrError::Prefix
        } else {
            CidrError::Shape
        }),
{
    let parts = split_char(s, '/');
    if parts.len() != 2 {
        return Err(CidrError::Shape);
    }
    match crate::text::parse_u64_dec(parts[1].as_str()) {
        Some(v) => {
            if v <= 255 {
                let addr = parts[0].clone();
                Ok((addr, v as u8))
            } else {
                Err(CidrError::Prefix)
            }
        },
        None => Err(CidrError::Prefix),
    }
}

/// The IPv4 netmask for a prefix length: the top `prefix_len` bits set. A
/// zero prefix yields the empty mask.
pub open spec fn mask_value(prefix_len: u32) -> u32
    recommends
        prefix_len <= 32,
{
    if prefix_len == 0 {
        0u32
    } else {
        0xFFFF_FFFFu32 << (32 - prefix_len)
    }
}

/// The dotted-quad rendering of the netmask.
pub open spec fn netmask_str(prefix_len: u32) -> Seq<char> {
    let v = mask_value(prefix_len);
    dec_of(((v >> 24) & 0xFF) as nat) + seq!['.'] + dec_of(((v >> 16) & 0xFF) as nat) + seq!['.']
        + dec_of(((v >> 8) & 0xFF) as nat) + seq!['.'] + dec_of((v & 0xFF) as nat)
}

/// Renders the netmask for a prefix length as a dotted quad.
pub fn netmask_of_prefix(prefix_len: u32) -> (r: String)
    requires
        prefix_len <= 32,
    ensures
        r@ == netmask_str(prefix_len),
{
    let v: u32 = if prefix_len == 0 {
        0
    } else {
        0xFFFF_FFFFu32 << (32 - prefix_len)
    };
    let mut out = String::new();
    append_u64_dec(&mut out, ((v >> 24) & 0xFF) as u64);
    out.append(".");
    append_u64_dec(&mut out, ((v >> 16) & 0xFF) as u64);
    out.append(".");
    append_u64_dec(&mut out, ((v >> 8) & 0xFF) as u64);
    out.append(".");
    append_u64_dec(&mut out, (v & 0xFF) as u64);
    proof {
        reveal_strlit(".");
        assert(out@ =~= netmask_str(prefix_len));
    }
    out
}

// ---------------------------------------------------------------------------
// The start scripts
// ---------------------------------------------------------------------------

/// The route fragments of the desktop start script: delete-then-add for
/// every non-default route, errors ignored so an existing route does not
/// disturb the pid output.
pub open spec fn macos_route_frags(routes: Seq<String>, iface: Seq<char>, n: int) -> Seq<char>
    decreases n,
{
    if n <= 0 {
        Seq::<char>::empty()
    } else {
        macos_route_frags(routes, iface, n - 1) + (if is_default_route_spec(routes[n - 1]@) {
            Seq::<char>::empty()
        } else {
            " && (/sbin/route delete -inet "@ + sq_escaped(routes[n - 1]@)
                + " > /dev/null 2>&1 || true) && (/sbin/route add -inet "@ + sq_escaped(
                routes[n - 1]@,
            ) + " -interface "@ + quoted(iface) + " > /dev/null 2>&1 || true)"@
        })
    }
}

/// The one-shot elevation script for the desktop platform: start the
/// engine, wait briefly, hand the control socket to the invoking user,
/// assign the point-to-point address, bring the interface up, install the
/// routes, and finally echo the engine's pid.
pub open spec fn macos_start_script_spec(
    wg_path: Seq<char>,
    iface: Seq<char>,
    user: Seq<char>,
    ip: Seq<char>,
    netmask: Seq<char>,
    routes: Seq<String>,
) -> Seq<char> {
    quoted(wg_path) + " -f "@ + quoted(iface)
        + " > /tmp/wireguard-go.log 2>&1 & WG_PID=$! && sleep 1 && /usr/sbin/chown "@ + quoted(
        user,
    ) + " /var/run/wireguard/"@ + sq_escaped(iface) + ".sock && /sbin/ifconfig "@ + quoted(iface)
        + " inet "@ + quoted(ip) + " "@ + quoted(ip) + " netmask "@ + quoted(netmask)
        + " && /sbin/ifconfig "@ + quoted(iface) + " up"@ + macos_route_frags(
        routes,
        iface,
        routes.len() as int,
    ) + " && echo $WG_PID"@
}

/// Builds the desktop platform's start script.
#[verifier::loop_isolation(false)]
#[verifier::rlimit(60)]
pub fn build_macos_start_script(
    wg_path: &str,
    iface: &str,
    user: &str,
    ip: &str,
    netmask: &str,
    routes: &Vec<String>,
) -> (r: String)
    ensures
        r@ == macos_start_script_spec(wg_path@, iface@, user@, ip@, netmask@, routes@),
{
    let mut out = String::new();
    append_quoted(&mut out, wg_path);
    out.append(" -f ");
    append_quoted(&mut out, iface);
    out.append(" > /tmp/wireguard-go.log 2>&1 & WG_PID=$! && sleep 1 && /usr/sbin/chown ");
    append_quoted(&mut out, user);
    out.append(" /var/run/wireguard/");
    append_escaped(&mut out, iface);
    out.append(".sock && /sbin/ifconfig ");
    append_quoted(&mut out, iface);
    out.append(" inet ");
    append_quoted(&mut out, ip);
    out.append(" ");
    append_quoted(&mut out, ip);
    out.append(" netmask ");
    append_quoted(&mut out, netmask);
    out.append(" && /sbin/ifconfig ");
    append_quoted(&mut out, iface);
    out.append(" up");
    let ghost head = out@;
    proof {
        assert(head + macos_route_frags(routes@, iface@, 0) =~= head);
    }
    let n = routes.len();
    let mut i: usize = 0;
    while i < n
        invariant
            0 <= i <= n,
            out@ == head + macos_route_frags(routes@, iface@, i as int),
        decreases n - i,
    {
        if !is_default_route(routes[i].as_str()) {
            out.append(" && (/sbin/route delete -inet ");
            append_escaped(&mut out, routes[i].as_str());
            out.append(" > /dev/null 2>&1 || true) && (/sbin/route add -inet ");
            append_escaped(&mut out, routes[i].as_str());
            out.append(" -interface ");
            append_quoted(&mut out, iface);
            out.append(" > /dev/null 2>&1 || true)");
        }
        proof {
            assert(out@ =~= head + macos_route_frags(routes@, iface@, i as int + 1));
        }
        i += 1;
    }
    out.append(" && echo $WG_PID");
    proof {
        assert(out@ =~= macos_start_script_spec(wg_path@, iface@, user@, ip@, netmask@, routes@));
    }
    out
}

/// The route fragments of the elevation script on the daemonless server
/// platform: quoted delete-then-add for every non-default route.
pub open spec fn linux_route_frags(routes: Seq<String>, iface: Seq<char>, n: int) -> Seq<char>
    decreases n,
{
    if n <= 0 {
        Seq::<char>::empty()
    } else {
        linux_route_frags(routes, iface, n - 1) + (if is_default_route_spec(routes[n - 1]@) {
            Seq::<char>::empty()
        } else {
            " && (/sbin/ip route delete "@ + quoted(routes[n - 1]@)
                + " > /dev/null 2>&1 || true) && (/sbin/ip route add "@ + quoted(routes[n - 1]@)
                + " dev "@ + quoted(iface) + " > /dev/null 2>&1 || true)"@
        })
    }
}

/// The one-shot elevation script used where no daemon runs: start the
/// engine, wait, assign the address, bring the interface up, install
/// routes, echo the pid.
pub open spec fn linux_start_script_spec(
    wg_path: Seq<char>,
    iface: Seq<char>,
    address: Seq<char>,
    routes: Seq<String>,
) -> Seq<char> {
    quoted(wg_path) + " -f "@ + quoted(iface)
        + " > /tmp/wireguard-go.log 2>&1 & WG_PID=$! && sleep 2 && /sbin/ip address add "@
        + quoted(address) + " dev "@ + quoted(iface) + " && /sbin/ip link set "@ + quoted(iface)
        + " up"@ + linux_route_frags(routes, iface, routes.len() as int) + " && echo $WG_PID"@
}

/// Builds the daemonless start script.
#[verifier::loop_isolation(false)]
#[verifier::rlimit(60)]
pub fn build_linux_start_script(
    wg_path: &str,
    iface: &str,
    address: &str,
    routes: &Vec<String>,
) -> (r: String)
    ensures
        r@ == linux_start_script_spec(wg_path@, iface@, address@, routes@),
{
    let mut out = String::new();
    append_quoted(&mut out, wg_path);
    out.append(" -f ");
    append_quoted(&mut out, iface);
    out.append(" > /tmp/wireguard-go.log 2>&1 & WG_PID=$! && sleep 2 && /sbin/ip address add ");
    append_quoted(&mut out, address);
    out.append(" dev ");
    append_quoted(&mut out, iface);
    out.append(" && /sbin/ip link set ");
    append_quoted(&mut out, iface);
    out.append(" up");
    let ghost head = out@;
    proof {
        assert(head + linux_route_frags(routes@, iface@, 0) =~= head);
    }
    let n = routes.len();
    let mut i: usize = 0;
    while i < n
        invariant
            0 <= i <= n,
            out@ == head + linux_route_frags(routes@, iface@, i as int),
        decreases n - i,
    {
        if !is_default_route(routes[i].as_str()) {
            out.append(" && (/sbin/ip route delete ");
            append_quoted(&mut out, routes[i].as_str());
            out.append(" > /dev/null 2>&1 || true) && (/sbin/ip route add ");
            append_quoted(&mut out, routes[i].as_str());
            out.append(" dev ");
            append_quoted(&mut out, iface);
            out.append(" > /dev/null 2>&1 || true)");
        }
        proof {
            assert(out@ =~= head + linux_route_frags(routes@, iface@, i as int + 1));
        }
        i += 1;
    }
    out.append(" && echo $WG_PID");
    proof {
        assert(out@ =~= linux_start_script_spec(wg_path@, iface@, address@, routes@));
    }
    out
}

/// The command that force-terminates an elevated engine process.
pub fn build_kill_command(pid: u32) -> (r: String)
    ensures
        r@ == "/bin/kill -9 "@ + dec_of(pid as nat),
{
    let mut out = "/bin/kill -9 ".to_owned();
    let num = u64_to_dec(pid as u64);
    out.append(num.as_str());
    out
}

/// The command that force-terminates any engine matching a stale
/// interface's name.
pub fn build_stale_kill_command(iface: &str) -> (r: String)
    ensures
        r@ == "/usr/bin/pkill -9 -f 'wireguard-go.*"@ + iface@ + "'"@,
{
    let mut out = "/usr/bin/pkill -9 -f 'wireguard-go.*".to_owned();
    out.append(iface);
    out.append("'");
    out
}

/// The effective prefix length of an interface address for the
/// point-to-point configuration: the number after the slash when it parses
/// and is at most 32, and 24 otherwise.
pub open spec fn address_prefix_spec(s: Seq<char>) -> u32 {
    let parts = split_spec(s, '/');
    if parts.len() >= 2 {
        let p = parts[1];
        if p.len() > 0 && all_dec_digits(p) && dec_val(p) <= 32 {
            dec_val(p) as u32
        } else {
            24
        }
    } else {
        24
    }
}

/// Splits an interface address into the bare address and the dotted-quad
/// netmask the point-to-point configuration call takes. Without a slash
/// the whole string is the address and the netmask defaults to a 24-bit
/// prefix.
pub fn address_and_netmask(address: &str) -> (r: (String, String))
    ensures
        r.0@ == split_spec(address@, '/')[0],
        r.1@ == netmask_str(address_prefix_spec(address@)),
{
    let parts = split_char(address, '/');
    let ip = parts[0].clone();
    let prefix: u32 = if parts.len() >= 2 {
        match crate::text::parse_u64_dec(parts[1].as_str()) {
            Some(v) => {
                if v <= 32 {
                    v as u32
                } else {
                    24
                }
            },
            None => 24,
        }
    } else {
        24
    };
    let mask = netmask_of_prefix(prefix);
    (ip, mask)
}

} // verus!
