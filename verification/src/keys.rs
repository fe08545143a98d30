//! Key re-encoding. Keys travel through the rest of the system in base64,
//! but the engine's control protocol takes them in hex; every key is decoded
//! and re-encoded before transmission, and any key whose decoded length is
//! not exactly 32 bytes is a hard validation error.

use vstd::prelude::*;

use crate::text::trim_spec;
use crate::text::trim_str;

verus! {

// ---------------------------------------------------------------------------
// Hexadecimal encoding, specified exactly
// ---------------------------------------------------------------------------

pub open spec fn hex_digit_char(d: int) -> char {
    if d == 0 {
        '0'
    } else if d == 1 {
        '1'
    } else if d == 2 {
        '2'
    } else if d == 3 {
        '3'
    } else if d == 4 {
        '4'
    } else if d == 5 {
        '5'
    } else if d == 6 {
        '6'
    } else if d == 7 {
        '7'
    } else if d == 8 {
        '8'
    } else if d == 9 {
        '9'
    } else if d == 10 {
        'a'
    } else if d == 11 {
        'b'
    } else if d == 12 {
        'c'
    } else if d == 13 {
        'd'
    } else if d == 14 {
        'e'
    } else {
        'f'
    }
}

pub open spec fn hex_digit_val(c: char) -> nat {
    if c == '0' {
        0
    } else if c == '1' {
        1
    } else if c == '2' {
        2
    } else if c == '3' {
        3
    } else if c == '4' {
        4
    } else if c == '5' {
        5
    } else if c == '6' {
        6
    } else if c == '7' {
        7
    } else if c == '8' {
        8
    } else if c == '9' {
        9
    } else if c == 'a' {
        10
    } else if c == 'b' {
        11
    } else if c == 'c' {
        12
    } else if c == 'd' {
        13
    } else if c == 'e' {
        14
    } else {
        15
    }
}

pub open spec fn is_hex_digit(c: char) -> bool {
    c == '0' || c == '1' || c == '2' || c == '3' || c == '4' || c == '5' || c == '6' || c == '7'
        || c == '8' || c == '9' || c == 'a' || c == 'b' || c == 'c' || c == 'd' || c == 'e'
        || c == 'f'
}

/// Lowercase hex rendering of a byte sequence, two digits per byte.
pub open spec fn hex_of(b: Seq<u8>) -> Seq<char>
    decreases b.len(),
{
    if b.len() == 0 {
        Seq::<char>::empty()
    } else {
        hex_of(b.drop_last()) + seq![
            hex_digit_char(b.last() as int / 16),
            hex_digit_char(b.last() as int % 16),
        ]
    }
}

/// The bytes a hex string denotes, reading two digits per byte. Partial on
/// odd-length strings only in the sense that a trailing lone digit is
/// ignored; on outputs of `hex_of` it is a full inverse.
pub open spec fn unhex_of(s: Seq<char>) -> Seq<u8>
    decreases s.len(),
{
    if s.len() < 2 {
        Seq::<u8>::empty()
    } else {
        unhex_of(s.subrange(0, s.len() - 2)).push(
            (hex_digit_val(s[s.len() - 2]) * 16 + hex_digit_val(s[s.len() - 1])) as u8,
        )
    }
}

pub proof fn lemma_hex_of_len(b: Seq<u8>)
    ensures
        hex_of(b).len() == 2 * b.len(),
    decreases b.len(),
{
    if b.len() > 0 {
        lemma_hex_of_len(b.drop_last());
    }
}

/// Every character of a hex rendering is a hex digit; in particular the
/// rendering never contains a newline, which the codec relies on.
pub proof fn lemma_hex_of_digits(b: Seq<u8>)
    ensures
        forall|i: int| 0 <= i < hex_of(b).len() ==> is_hex_digit(#[trigger] hex_of(b)[i]),
    decreases b.len(),
{
    if b.len() > 0 {
        lemma_hex_of_digits(b.drop_last());
        let t = hex_of(b.drop_last());
        assert forall|i: int| 0 <= i < hex_of(b).len() implies is_hex_digit(
            #[trigger] hex_of(b)[i],
        ) by {
            if i < t.len() {
                assert(hex_of(b)[i] == t[i]);
            } else {
                assert(b.last() as int / 16 < 16) by (nonlinear_arith);
                assert(b.last() as int % 16 < 16) by (nonlinear_arith);
            }
        }
    }
}

/// Law: hex re-encoding loses nothing; decoding the hex rendering of any
/// byte sequence yields the original bytes. Applied to 32-byte keys this is
/// the round-trip guarantee for the control protocol's key lines.
pub proof fn lemma_unhex_hex_roundtrip(b: Seq<u8>)
    ensures
        unhex_of(hex_of(b)) == b,
    decreases b.len(),
{
    if b.len() == 0 {
        assert(unhex_of(hex_of(b)) =~= b);
    } else {
        lemma_unhex_hex_roundtrip(b.drop_last());
        lemma_hex_of_len(b.drop_last());
        let h = hex_of(b);
        let hp = hex_of(b.drop_last());
        assert(h.subrange(0, h.len() - 2) =~= hp);
        let d1 = b.last() as int / 16;
        let d2 = b.last() as int % 16;
        assert(hex_digit_val(hex_digit_char(d1)) == d1);
        assert(hex_digit_val(hex_digit_char(d2)) == d2);
        assert(d1 * 16 + d2 == b.last() as int) by (nonlinear_arith)
            requires
                d1 == b.last() as int / 16,
                d2 == b.last() as int % 16,
        ;
        assert(unhex_of(h) =~= b);
    }
}

// ---------------------------------------------------------------------------
// Trusted items: the two outside codecs
// ---------------------------------------------------------------------------

/// Whether the standard base64 alphabet decoding of `s` succeeds. The
/// engine's verdict depends on the input characters alone.
pub uninterp spec fn base64_ok(s: Seq<char>) -> bool;

/// The bytes that the standard base64 alphabet decoding of `s` yields, when
/// it succeeds. The result depends on the input characters alone.
pub uninterp spec fn base64_decoded(s: Seq<char>) -> Seq<u8>;

/// Relies on `base64::Engine::decode` with the `STANDARD` engine: the call
/// succeeds exactly when the input is valid base64 under that engine, and
/// on success the returned bytes are the sequence the input denotes.
#[verifier::external_body]
fn base64_decode(s: &str) -> (r: Option<Vec<u8>>)
    ensures
        r is Some <==> base64_ok(s@),
        r is Some ==> r.unwrap()@ == base64_decoded(s@),
{
    match base64::Engine::decode(&base64::engine::general_purpose::STANDARD, s) {
        Ok(v) => Some(v),
        Err(_) => None,
    }
}

/// Relies on `hex::encode`: each input byte becomes two lowercase
/// hexadecimal digits, most significant first, in input order.
#[verifier::external_body]
pub(crate) fn hex_encode(b: &Vec<u8>) -> (r: String)
    ensures
        r@ == hex_of(b@),
{
    hex::encode(b)
}

// ---------------------------------------------------------------------------
// Key validation and re-encoding
// ---------------------------------------------------------------------------

/// A generated key pair, both halves in base64. Generation itself is an
/// external collaborator; the pair only travels through this crate.
#[derive(Clone, Debug)]
pub struct KeyPair {
    pub private_key: String,
    pub public_key: String,
}

/// How a key can fail validation.
#[derive(Debug, PartialEq, Eq, Structural)]
pub enum KeyError {
    /// The string is not valid base64 under the standard alphabet.
    NotBase64,
    /// The string decodes, but not to exactly 32 bytes.
    WrongLength { len: usize },
}

/// Re-encodes already-decoded key bytes as hex. Succeeds exactly on 32-byte
/// inputs; this is where the hard length check of the codec lives.
pub fn key_bytes_to_hex(b: &Vec<u8>) -> (r: Result<String, KeyError>)
    ensures
        r is Ok <==> b@.len() == 32,
        r is Ok ==> r.unwrap()@ == hex_of(b@),
        r is Err ==> (r->Err_0 matches KeyError::WrongLength { len } && len == b@.len()
            && len != 32),
{
    if b.len() == 32 {
        Ok(hex_encode(b))
    } else {
        Err(KeyError::WrongLength { len: b.len() })
    }
}

/// Decodes a base64 key (ignoring surrounding ASCII whitespace) and
/// re-encodes it in hex. Succeeds exactly when the trimmed key decodes and
/// the decoded length is 32 bytes; the two failures are told apart
/// if-and-only-if.
pub fn base64_to_hex(key: &str) -> (r: Result<String, KeyError>)
    ensures
        r is Ok <==> base64_ok(trim_spec(key@)) && base64_decoded(trim_spec(key@)).len() == 32,
        r is Ok ==> r.unwrap()@ == hex_of(base64_decoded(trim_spec(key@))),
        r == Err::<String, KeyError>(KeyError::NotBase64) <==> !base64_ok(trim_spec(key@)),
        base64_ok(trim_spec(key@)) && base64_decoded(trim_spec(key@)).len() != 32 <==> (
        r->Err_0 matches KeyError::WrongLength { len } && r is Err && len == base64_decoded(
            trim_spec(key@),
        ).len()),
{
    let trimmed = trim_str(key);
    match base64_decode(trimmed.as_str()) {
        None => Err(KeyError::NotBase64),
        Some(bytes) => key_bytes_to_hex(&bytes),
    }
}

/// Decodes a base64 key (ignoring surrounding ASCII whitespace) into its
/// bytes; `None` exactly when the engine rejects the trimmed string.
pub fn base64_key_bytes(key: &str) -> (r: Option<Vec<u8>>)
    ensures
        r is Some <==> base64_ok(trim_spec(key@)),
        r is Some ==> r.unwrap()@ == base64_decoded(trim_spec(key@)),
{
    let trimmed = trim_str(key);
    base64_decode(trimmed.as_str())
}

/// Clamps a raw 32-byte scalar into the shape the tunnel's key-exchange
/// function expects: clears the low 3 bits of the first byte and the high
/// bit of the last, and sets the last byte's second-highest bit.
pub fn clamp_private_key(key: &mut [u8; 32])
    ensures
        final(key)@ == old(key)@.update(0, old(key)@[0] & 248).update(
            31,
            (old(key)@[31] & 127) | 64,
        ),
{
    let b0 = key[0] & 248;
    key[0] = b0;
    let b31 = (key[31] & 127) | 64;
    key[31] = b31;
    proof {
        assert(key@ =~= old(key)@.update(0, old(key)@[0] & 248).update(
            31,
            (old(key)@[31] & 127) | 64,
        ));
    }
}

} // verus!
