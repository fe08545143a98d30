//! Deriving a short, OS-legal interface identifier from an opaque tunnel id.
//!
//! On platforms that create numbered virtual interfaces the name is a fixed
//! prefix plus a content hash of the id folded into 0..99, so the same id
//! always maps to the same name across restarts. On the vendor-service
//! platform the id itself becomes the service name, cleaned to the
//! characters that platform accepts.

use vstd::prelude::*;

use crate::text::append_u64_dec;
use crate::text::dec_of;
use vstd::string::StringSliceAdditionalSpecFns;

verus! {

// ---------------------------------------------------------------------------
// Hashed interface names
// ---------------------------------------------------------------------------

/// One folding step of the content hash: multiply by 31 and add the next
/// byte, both wrapping at 2^32.
pub open spec fn hash_step(h: nat, b: nat) -> nat {
    let m = (h * 31) % 0x1_0000_0000;
    if m + b > 0xFFFF_FFFF {
        (m + b - 0x1_0000_0000) as nat
    } else {
        m + b
    }
}

/// The content hash of a tunnel id's bytes.
pub open spec fn name_hash(bytes: Seq<u8>) -> nat
    decreases bytes.len(),
{
    if bytes.len() == 0 {
        0
    } else {
        hash_step(name_hash(bytes.drop_last()), bytes.last() as nat)
    }
}

pub proof fn lemma_name_hash_range(bytes: Seq<u8>)
    ensures
        name_hash(bytes) < 0x1_0000_0000,
    decreases bytes.len(),
{
    if bytes.len() > 0 {
        lemma_name_hash_range(bytes.drop_last());
    }
}

/// The derived interface name for a given platform prefix: the prefix and
/// the hash folded into the bounded range 0..99.
pub open spec fn prefixed_name_spec(prefix: Seq<char>, bytes: Seq<u8>) -> Seq<char> {
    prefix + dec_of(name_hash(bytes) % 100)
}

/// The derived interface name under the daemon platform's prefix.
pub open spec fn interface_name_spec(bytes: Seq<u8>) -> Seq<char> {
    prefixed_name_spec("tun"@, bytes)
}

proof fn lemma_dec_of_short(n: nat)
    requires
        n < 100,
    ensures
        dec_of(n).len() <= 2,
{
    if n >= 10 {
        assert(dec_of(n) == dec_of(n / 10).push(crate::text::digit_char((n % 10) as int)));
    }
}

/// Law: the derived name is a function of the tunnel id alone — deriving
/// twice from the same id gives the same name. (That two different ids
/// usually get different names is a distribution property of the hash, not
/// a guarantee.)
pub proof fn lemma_interface_name_deterministic(a: Seq<u8>, b: Seq<u8>)
    requires
        a == b,
    ensures
        interface_name_spec(a) == interface_name_spec(b),
{
}

/// Derives the interface name for a tunnel id under a caller-chosen
/// platform prefix, deterministically: the prefix plus a numeric part in
/// 0..99. Each platform that numbers its virtual interfaces passes its own
/// prefix here.
#[verifier::loop_isolation(false)]
pub fn generate_interface_name_with_prefix(prefix: &str, tunnel_id: &str) -> (r: String)
    ensures
        r@ == prefixed_name_spec(prefix@, tunnel_id.spec_bytes()),
        r@.len() <= prefix@.len() + 2,
{
    let bytes = tunnel_id.as_bytes();
    let n = bytes.len();
    let mut h: u32 = 0;
    let mut i: usize = 0;
    proof {
        assert(bytes@.subrange(0, 0) =~= Seq::<u8>::empty());
    }
    while i < n
        invariant
            0 <= i <= n,
            h == name_hash(bytes@.subrange(0, i as int)),
        decreases n - i,
    {
        proof {
            let t = bytes@.subrange(0, i as int + 1);
            assert(t.drop_last() =~= bytes@.subrange(0, i as int));
            assert(t.last() == bytes@[i as int]);
            lemma_name_hash_range(bytes@.subrange(0, i as int + 1));
        }
        h = h.wrapping_mul(31).wrapping_add(bytes[i] as u32);
        i += 1;
    }
    proof {
        assert(bytes@.subrange(0, n as int) =~= bytes@);
    }
    let number = h % 100;
    let mut name = prefix.to_owned();
    append_u64_dec(&mut name, number as u64);
    proof {
        lemma_dec_of_short((h % 100) as nat);
    }
    name
}

/// Derives the interface name under the daemon platform's prefix.
pub fn generate_interface_name(tunnel_id: &str) -> (r: String)
    ensures
        r@ == interface_name_spec(tunnel_id.spec_bytes()),
        r@.len() <= 5,
{
    let r = generate_interface_name_with_prefix("tun", tunnel_id);
    proof {
        reveal_strlit("tun");
    }
    r
}

// ---------------------------------------------------------------------------
// Sanitized service identifiers
// ---------------------------------------------------------------------------

/// The characters the vendor platform accepts in a tunnel name.
pub open spec fn is_ident_char(c: char) -> bool {
    (48 <= c as u32 && c as u32 <= 57) || (65 <= c as u32 && c as u32 <= 90) || (97 <= c as u32
        && c as u32 <= 122) || c == '-' || c == '_'
}

pub open spec fn sanitize_char(c: char) -> char {
    if is_ident_char(c) {
        c
    } else {
        '_'
    }
}

/// The sanitized identifier: a fixed prefix that makes the name start with
/// a letter, then the id with every illegal character replaced; an empty id
/// falls back to a default name.
pub open spec fn sanitize_spec(s: Seq<char>) -> Seq<char> {
    if s.len() == 0 {
        "wgx_tunnel"@
    } else {
        "wgx_"@ + s.map_values(|c: char| sanitize_char(c))
    }
}

fn is_ident_char_exec(c: char) -> (r: bool)
    ensures
        r == is_ident_char(c),
{
    let v = c as u32;
    (48 <= v && v <= 57) || (65 <= v && v <= 90) || (97 <= v && v <= 122) || c == '-' || c == '_'
}

/// Cleans a tunnel id into an identifier the vendor platform accepts.
#[verifier::loop_isolation(false)]
pub fn sanitize_identifier(input: &str) -> (r: String)
    ensures
        r@ == sanitize_spec(input@),
{
    let len = input.unicode_len();
    if len == 0 {
        return "wgx_tunnel".to_owned();
    }
    let mut out = "wgx_".to_owned();
    let mut i: usize = 0;
    proof {
        assert(out@ =~= "wgx_"@ + input@.subrange(0, 0).map_values(|c: char| sanitize_char(c)));
    }
    while i < len
        invariant
            0 <= i <= len,
            out@ == "wgx_"@ + input@.subrange(0, i as int).map_values(
                |c: char| sanitize_char(c),
            ),
        decreases len - i,
    {
        let c = input.get_char(i);
        if is_ident_char_exec(c) {
            out.append(input.substring_char(i, i + 1));
        } else {
            out.append("_");
        }
        proof {
            reveal_strlit("_");
            assert(out@ =~= "wgx_"@ + input@.subrange(0, i as int + 1).map_values(
                |c: char| sanitize_char(c),
            ));
        }
        i += 1;
    }
    proof {
        assert(input@.subrange(0, len as int) =~= input@);
    }
    out
}

} // verus!
