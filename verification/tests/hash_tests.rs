use causal_doc::hash::{decode_hex, encode_hex, ParseError};
use causal_doc::identity::{PrivateKey, PublicKey};

fn mk_hash(n: u8) -> causal_doc::hash::Hash {
    causal_doc::hash::Hash::from_bytes(vec![n; 32])
}

#[test]
fn hash_string_round_trip() {
    let bytes: Vec<u8> = (0u8..32).collect();
    let h = causal_doc::hash::Hash::from_bytes(bytes);
    let s = h.to_string();
    assert_eq!(s.len(), 64);
    let back = causal_doc::hash::Hash::from_string(&s).unwrap();
    assert_eq!(back, h);
}

#[test]
fn hash_hex_round_trip() {
    let h = mk_hash(0xab);
    let s = h.to_hex();
    assert_eq!(s, "ab".repeat(32));
    let back = causal_doc::hash::Hash::from_hex(&s).unwrap();
    assert_eq!(back, h);
}

#[test]
fn digest_of_empty_content() {
    let h = causal_doc::hash::Hash::new(&[]);
    assert_eq!(
        h.to_string(),
        "e3b0c44298fc1c149afbf4c8996fb92427ae41e4649b934ca495991b7852b855"
    );
}

#[test]
fn digest_of_known_content() {
    let h = causal_doc::hash::Hash::new(b"abc");
    assert_eq!(
        h.to_string(),
        "ba7816bf8f01cfea414140de5dae2223b00361a396177a9cb410ff61f20015ad"
    );
}

#[test]
fn digest_is_deterministic() {
    let a = causal_doc::hash::Hash::new(b"content");
    let b = causal_doc::hash::Hash::new(b"content");
    assert_eq!(a, b);
    assert!(a.equals(&b));
    let c = causal_doc::hash::Hash::new(b"other");
    assert_ne!(a, c);
}

#[test]
fn from_string_rejects_bad_length() {
    assert_eq!(causal_doc::hash::Hash::from_string("abcd"), Err(ParseError));
    assert_eq!(causal_doc::hash::Hash::from_string(""), Err(ParseError));
}

#[test]
fn from_string_rejects_bad_characters() {
    let s = "zz".repeat(32);
    assert_eq!(causal_doc::hash::Hash::from_string(&s), Err(ParseError));
    let t = "AB".repeat(32);
    assert_eq!(causal_doc::hash::Hash::from_string(&t), Err(ParseError));
    let u = "é".repeat(32);
    assert_eq!(causal_doc::hash::Hash::from_string(&u), Err(ParseError));
}

#[test]
fn encode_decode_bytes() {
    let bytes: Vec<u8> = (0u8..32).map(|b| b.wrapping_mul(9).wrapping_add(200)).collect();
    let s = encode_hex(&bytes);
    let back = decode_hex(&s).unwrap();
    assert_eq!(back, bytes);
}

#[test]
fn public_key_string_round_trip() {
    let pk = PublicKey::from_bytes(vec![7u8; 32]);
    let s = pk.to_string();
    assert_eq!(s, "07".repeat(32));
    let back = PublicKey::from_string(&s).unwrap();
    assert_eq!(back, pk);
}

#[test]
fn private_key_projects_one_public_key() {
    let sk = PrivateKey::new();
    let pk1 = sk.public_key();
    let pk2 = sk.public_key();
    assert_eq!(pk1, pk2);
    assert_eq!(pk1.bytes.len(), 32);
}

#[test]
fn fresh_private_keys_differ() {
    let a = PrivateKey::new().public_key();
    let b = PrivateKey::new().public_key();
    assert_ne!(a, b);
}
