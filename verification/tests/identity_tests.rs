use lattice_crypto_rs::identity::{
    derive_shared_digest, generate_agent_keypair, sign_token, sign_token_at, simple_hash, unix_timestamp,
    verify_token,
};


/// The verification tolerance for modulus `q`: `q / 6` in floating point, truncated.
fn tolerance(q: i64) -> i64 {
    (q as f64 / 6.0) as i64
}

#[test]
fn test_generate_keypair() {
    let kp = generate_agent_keypair("test-agent");
    assert_eq!(kp.agent_id, "test-agent");
    assert_eq!(kp.dimension, 64);
    assert_eq!(kp.public_key.len(), 64);
    assert_eq!(kp.secret_key.len(), 64);
    assert_eq!(kp.a_poly.len(), 64);
}

#[test]
fn test_sign_and_verify() {
    let kp = generate_agent_keypair("alice");
    let data = b"hello world";
    let token = sign_token(&kp, data);
    assert_eq!(token.agent_id, "alice");
    assert!(verify_token(&token, &kp.public_key_bytes(), tolerance(token.modulus)));
}

#[test]
fn test_verify_fails_with_wrong_key() {
    let kp1 = generate_agent_keypair("alice");
    let kp2 = generate_agent_keypair("bob");
    let data = b"hello world";
    let token = sign_token(&kp1, data);
    assert!(!verify_token(&token, &kp2.public_key_bytes(), tolerance(token.modulus)));
}

#[test]
fn test_verify_fails_with_wrong_data() {
    let kp = generate_agent_keypair("alice");
    let token = sign_token(&kp, b"correct data");
    let mut bad_token = token.clone();
    bad_token.data_hash = bad_token.data_hash.wrapping_add(1);
    assert!(!verify_token(&bad_token, &kp.public_key_bytes(), tolerance(bad_token.modulus)));
}

#[test]
fn test_different_agents_different_keys() {
    let kp1 = generate_agent_keypair("agent-1");
    let kp2 = generate_agent_keypair("agent-2");
    assert_ne!(kp1.public_key, kp2.public_key);
    assert_ne!(kp1.secret_key, kp2.secret_key);
}

#[test]
fn test_public_key_bytes_roundtrip() {
    let kp = generate_agent_keypair("bytes-test");
    let bytes = kp.public_key_bytes();
    assert_eq!(bytes.len(), 64 * 8 * 2);
}

#[test]
fn test_token_serialization() {
    let kp = generate_agent_keypair("serialize-test");
    let token = sign_token(&kp, b"test data");
    let bytes = token.to_bytes();
    assert!(!bytes.is_empty());
    assert!(bytes.len() > 100);
}

#[test]
fn test_simple_hash_deterministic() {
    let h1 = simple_hash(b"test");
    let h2 = simple_hash(b"test");
    assert_eq!(h1, h2);
    let h3 = simple_hash(b"different");
    assert_ne!(h1, h3);
}

#[test]
fn test_derive_shared_digest() {
    let kp1 = generate_agent_keypair("alice");
    let kp2 = generate_agent_keypair("bob");
    let d1 = derive_shared_digest(&kp1, &kp2);
    let d2 = derive_shared_digest(&kp2, &kp1);
    assert_ne!(d1, 0);
    assert_ne!(d2, 0);
}

#[test]
fn test_sign_empty_data() {
    let kp = generate_agent_keypair("empty-data");
    let token = sign_token(&kp, b"");
    assert!(verify_token(&token, &kp.public_key_bytes(), tolerance(token.modulus)));
}

#[test]
fn test_sign_large_data() {
    let kp = generate_agent_keypair("large-data");
    let data: Vec<u8> = (0..10000).map(|i| (i % 256) as u8).collect();
    let token = sign_token(&kp, &data);
    assert!(verify_token(&token, &kp.public_key_bytes(), tolerance(token.modulus)));
}

#[test]
fn test_verify_wrong_dimension_fails() {
    let kp = generate_agent_keypair("dim-test");
    let token = sign_token(&kp, b"data");
    assert!(!verify_token(&token, &[0u8; 16], tolerance(token.modulus)));
}

#[test]
fn test_token_fields() {
    let kp = generate_agent_keypair("field-test");
    let token = sign_token(&kp, b"check fields");
    assert_eq!(token.agent_id, "field-test");
    assert_eq!(token.modulus, 7681);
    assert_eq!(token.dimension, 64);
    assert_eq!(token.signature_b.len(), 64);
    assert!(token.timestamp > 0);
}

#[test]
fn simple_hash_empty_is_offset_basis() {
    assert_eq!(simple_hash(b""), 0xcbf29ce484222325);
    // FNV-1a of "a"
    assert_eq!(simple_hash(b"a"), 0xaf63dc4c8601ec8c);
}

#[test]
fn sign_token_at_keeps_timestamp_and_verifies() {
    let kp = generate_agent_keypair("clock-free");
    let token = sign_token_at(&kp, b"payload", 1_700_000_000);
    assert_eq!(token.timestamp, 1_700_000_000);
    assert!(verify_token(&token, &kp.public_key_bytes(), tolerance(token.modulus)));
    let again = sign_token_at(&kp, b"payload", 1_700_000_000);
    assert_eq!(token, again);
}

#[test]
fn public_key_bytes_are_little_endian_words() {
    let kp = generate_agent_keypair("le-test");
    let bytes = kp.public_key_bytes();
    let first = i64::from_le_bytes(bytes[0..8].try_into().unwrap());
    assert_eq!(first, kp.a_poly[0]);
    let b0 = i64::from_le_bytes(bytes[64 * 8..64 * 8 + 8].try_into().unwrap());
    assert_eq!(b0, kp.public_key[0]);
}

#[test]
fn token_to_bytes_layout() {
    let kp = generate_agent_keypair("ab");
    let token = sign_token_at(&kp, b"x", 5);
    let bytes = token.to_bytes();
    assert_eq!(bytes.len(), 8 + 2 + 8 * 5 + 64 * 8);
    assert_eq!(&bytes[0..8], &2u64.to_le_bytes());
    assert_eq!(&bytes[8..10], b"ab");
    assert_eq!(&bytes[10..18], &token.data_hash.to_le_bytes());
    assert_eq!(&bytes[18..26], &5i64.to_le_bytes());
}

#[test]
fn unix_timestamp_maps_clock_readings() {
    assert_eq!(unix_timestamp(None), 0);
    assert_eq!(unix_timestamp(Some(1_700_000_000)), 1_700_000_000);
    assert_eq!(unix_timestamp(Some(u64::MAX)), -1);
}
