use base64::Engine;
use wire_vault::keys::{base64_to_hex, clamp_private_key, key_bytes_to_hex, KeyError};

fn b64(bytes: &[u8]) -> String {
    base64::engine::general_purpose::STANDARD.encode(bytes)
}

#[test]
fn key_reencode_round_trip_preserves_bytes() {
    let bytes: Vec<u8> = (0u8..32u8).collect();
    let key = b64(&bytes);
    let hex = base64_to_hex(&key).expect("valid key must re-encode");
    let back = hex::decode(&hex).expect("output must be hex");
    assert_eq!(back, bytes);
}

#[test]
fn key_reencode_round_trip_all_byte_values() {
    let bytes: Vec<u8> = (224u8..=255u8).collect();
    assert_eq!(bytes.len(), 32);
    let hex = base64_to_hex(&b64(&bytes)).unwrap();
    assert_eq!(hex::decode(&hex).unwrap(), bytes);
}

#[test]
fn key_reencode_is_lowercase_hex() {
    let bytes = [0xABu8; 32];
    let hex = base64_to_hex(&b64(&bytes)).unwrap();
    assert_eq!(hex, "ab".repeat(32));
}

#[test]
fn key_reencode_trims_whitespace() {
    let bytes = [7u8; 32];
    let key = format!("  {}\n", b64(&bytes));
    let hex = base64_to_hex(&key).unwrap();
    assert_eq!(hex, hex::encode(bytes));
}

#[test]
fn short_key_is_wrong_length() {
    let key = b64(&[1u8; 31]);
    assert_eq!(base64_to_hex(&key), Err(KeyError::WrongLength { len: 31 }));
}

#[test]
fn long_key_is_wrong_length() {
    let key = b64(&[1u8; 33]);
    assert_eq!(base64_to_hex(&key), Err(KeyError::WrongLength { len: 33 }));
}

#[test]
fn garbage_is_not_base64() {
    assert_eq!(base64_to_hex("!!!not base64!!!"), Err(KeyError::NotBase64));
}

#[test]
fn key_bytes_to_hex_checks_length() {
    let bytes: Vec<u8> = vec![0u8; 32];
    assert_eq!(key_bytes_to_hex(&bytes).unwrap(), "00".repeat(32));
    let short: Vec<u8> = vec![0u8; 5];
    assert_eq!(key_bytes_to_hex(&short), Err(KeyError::WrongLength { len: 5 }));
}

#[test]
fn clamp_clears_and_sets_the_documented_bits() {
    let mut key = [0xFFu8; 32];
    clamp_private_key(&mut key);
    assert_eq!(key[0], 0xF8);
    assert_eq!(key[31], (0xFF & 127) | 64);
    for b in &key[1..31] {
        assert_eq!(*b, 0xFF);
    }
    let mut zero = [0u8; 32];
    clamp_private_key(&mut zero);
    assert_eq!(zero[0], 0);
    assert_eq!(zero[31], 64);
}
