//! The pinned verifier against real OpenSSL keys, and the reset-seed text
//! format.

use openssl::ec::{EcGroup, EcKey};
use openssl::hash::MessageDigest;
use openssl::nid::Nid;
use openssl::pkey::PKey;
use openssl::rsa::{Padding, Rsa};
use openssl::sign::{RsaPssSaltlen, Signer};
use slipstream::pinning::{
    is_probe_call, pinned_leaf_matches, pinning_algos, verify_signature, KeyFamily, PinnedKey,
    SIG_ALGO_SENTINEL, SIG_ECDSA_SECP256R1_SHA256, SIG_ED25519, SIG_RSA_PKCS1_SHA256,
    SIG_RSA_PSS_RSAE_SHA256,
};
use slipstream::seed::{format_hex_seed, parse_hex_seed, RESET_SECRET_SIZE};
use slipstream::tcp::{within_stream_buffer, STREAM_WRITE_BUFFER_BYTES};
use slipstream::tcp::stream_read_limit_chunks;
use slipstream::client_cfg::compute_mtu;

#[test]
fn ecdsa_signature_verifies_and_corruption_fails() {
    let group = EcGroup::from_curve_name(Nid::X9_62_PRIME256V1).unwrap();
    let ec = EcKey::generate(&group).unwrap();
    let pkey = PKey::from_ec_key(ec).unwrap();
    let spki = pkey.public_key_to_der().unwrap();
    let data = b"handshake transcript";
    let mut signer = Signer::new(MessageDigest::sha256(), &pkey).unwrap();
    signer.update(data).unwrap();
    let sig = signer.sign_to_vec().unwrap();

    let key = PinnedKey::from_der(spki);
    assert_eq!(key.family, KeyFamily::Ec);
    assert_eq!(
        verify_signature(&key, SIG_ECDSA_SECP256R1_SHA256, data, &sig).unwrap(),
        true
    );
    assert_eq!(
        verify_signature(&key, SIG_ECDSA_SECP256R1_SHA256, b"other data", &sig).unwrap(),
        false
    );
    // The claimed algorithm must match the key family.
    assert!(verify_signature(&key, SIG_RSA_PKCS1_SHA256, data, &sig).is_err());
    assert!(verify_signature(&key, SIG_ED25519, data, &sig).is_err());
    assert!(verify_signature(&key, 0x0101, data, &sig).is_err());
}

#[test]
fn rsa_signatures_verify_under_both_paddings() {
    let rsa = Rsa::generate(2048).unwrap();
    let pkey = PKey::from_rsa(rsa).unwrap();
    let spki = pkey.public_key_to_der().unwrap();
    let key = PinnedKey::from_der(spki);
    assert_eq!(key.family, KeyFamily::Rsa);
    let data = b"certificate verify";

    let mut signer = Signer::new(MessageDigest::sha256(), &pkey).unwrap();
    signer.set_rsa_padding(Padding::PKCS1).unwrap();
    signer.update(data).unwrap();
    let sig = signer.sign_to_vec().unwrap();
    assert_eq!(
        verify_signature(&key, SIG_RSA_PKCS1_SHA256, data, &sig).unwrap(),
        true
    );
    assert_eq!(
        verify_signature(&key, SIG_RSA_PSS_RSAE_SHA256, data, &sig).unwrap(),
        false
    );

    let mut signer = Signer::new(MessageDigest::sha256(), &pkey).unwrap();
    signer.set_rsa_padding(Padding::PKCS1_PSS).unwrap();
    signer.set_rsa_pss_saltlen(RsaPssSaltlen::DIGEST_LENGTH).unwrap();
    signer.set_rsa_mgf1_md(MessageDigest::sha256()).unwrap();
    signer.update(data).unwrap();
    let pss_sig = signer.sign_to_vec().unwrap();
    assert_eq!(
        verify_signature(&key, SIG_RSA_PSS_RSAE_SHA256, data, &pss_sig).unwrap(),
        true
    );
}

#[test]
fn eddsa_signature_verifies() {
    let pkey = PKey::generate_ed25519().unwrap();
    let spki = pkey.public_key_to_der().unwrap();
    let key = PinnedKey::from_der(spki);
    assert_eq!(key.family, KeyFamily::Ed25519);
    let data = b"certificate verify";
    let mut signer = Signer::new_without_digest(&pkey).unwrap();
    let sig = signer.sign_oneshot_to_vec(data).unwrap();
    assert_eq!(verify_signature(&key, SIG_ED25519, data, &sig).unwrap(), true);
    let mut bad = sig.clone();
    bad[0] ^= 1;
    assert_eq!(verify_signature(&key, SIG_ED25519, data, &bad).unwrap(), false);
}

#[test]
fn leaf_pinning_is_byte_equality() {
    let a = vec![1u8, 2, 3];
    let b = vec![1u8, 2, 3];
    let c = vec![1u8, 2, 4];
    assert!(pinned_leaf_matches(&a, &b));
    assert!(!pinned_leaf_matches(&a, &c));
    assert!(!pinned_leaf_matches(&a, &a[..2].to_vec()));
}

#[test]
fn probe_calls_are_empty_buffers() {
    assert!(is_probe_call(0, 0));
    assert!(!is_probe_call(1, 0));
    assert!(!is_probe_call(0, 1));
}

#[test]
fn algo_list_ends_in_sentinel() {
    let algos = pinning_algos();
    assert_eq!(algos.len(), 15);
    assert_eq!(algos[0], SIG_ED25519);
    assert_eq!(algos[14], SIG_ALGO_SENTINEL);
}

#[test]
fn reset_seed_round_trip() {
    let seed: Vec<u8> = (0..RESET_SECRET_SIZE as u8).map(|i| i * 17).collect();
    let text = format_hex_seed(&seed);
    assert_eq!(text.len(), 2 * RESET_SECRET_SIZE + 1);
    assert_eq!(*text.last().unwrap(), b'\n');
    let parsed = parse_hex_seed(&text).expect("round trip");
    assert_eq!(parsed, seed);
}

#[test]
fn reset_seed_rejects_bad_length() {
    let err = parse_hex_seed(b"deadbeef").unwrap_err();
    assert!(err.message().contains("reset seed must be"));
    assert!(parse_hex_seed(b"zzzzzzzzzzzzzzzzzzzzzzzzzzzzzzzz").is_err());
    let ok = parse_hex_seed(b"000102030405060708090a0b0c0d0e0f\n").unwrap();
    assert_eq!(ok[1], 1);
    assert_eq!(ok[15], 15);
}

#[test]
fn compute_mtu_matches_the_apex_budget() {
    assert_eq!(compute_mtu(11).unwrap(), 143);
    assert_eq!(compute_mtu(0).unwrap(), 150);
    assert!(compute_mtu(240).is_err());
    assert!(compute_mtu(239).is_err());
    assert_eq!(compute_mtu(238).unwrap(), 1);
}

#[test]
fn stream_buffer_allows_exact_limit() {
    let limit = STREAM_WRITE_BUFFER_BYTES;
    assert!(within_stream_buffer(0, limit));
    assert!(within_stream_buffer(limit - 1, 1));
}

#[test]
fn stream_buffer_rejects_overflow() {
    let limit = STREAM_WRITE_BUFFER_BYTES;
    assert!(!within_stream_buffer(limit, 1));
    assert!(!within_stream_buffer(limit - 1, 2));
}

#[test]
fn read_limit_is_clamped_and_chunked() {
    // 8 MiB buffer in 4 KiB chunks.
    assert_eq!(stream_read_limit_chunks(Some(8 << 20), 0, 4096), 2048);
    // Small buffers clamp up to 4 MiB.
    assert_eq!(stream_read_limit_chunks(Some(1), 0, 4096), 1024);
    // Unknown buffers take the default before clamping.
    assert_eq!(stream_read_limit_chunks(None, 32 << 20, 4096), 4096);
}
