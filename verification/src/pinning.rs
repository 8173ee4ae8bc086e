//! The pinned-certificate verifier: leaf comparison and handshake-signature
//! dispatch across the TLS 1.3 algorithm set.
//!
//! The cryptography itself is OpenSSL's; each primitive stands behind one
//! trusted wrapper whose result only names what the primitive computes.
//! The dispatch — which scheme takes which key family, and what each
//! outcome means — is verified.

use vstd::prelude::*;
use crate::error::ClientError;

verus! {

/// RSA PKCS#1 v1.5 with SHA-256.
pub const SIG_RSA_PKCS1_SHA256: u16 = 0x0401;

/// RSA PKCS#1 v1.5 with SHA-384.
pub const SIG_RSA_PKCS1_SHA384: u16 = 0x0501;

/// RSA PKCS#1 v1.5 with SHA-512.
pub const SIG_RSA_PKCS1_SHA512: u16 = 0x0601;

/// ECDSA on P-256 with SHA-256.
pub const SIG_ECDSA_SECP256R1_SHA256: u16 = 0x0403;

/// ECDSA on P-384 with SHA-384.
pub const SIG_ECDSA_SECP384R1_SHA384: u16 = 0x0503;

/// ECDSA on P-521 with SHA-512.
pub const SIG_ECDSA_SECP521R1_SHA512: u16 = 0x0603;

/// RSA-PSS under an rsaEncryption key, SHA-256.
pub const SIG_RSA_PSS_RSAE_SHA256: u16 = 0x0804;

/// RSA-PSS under an rsaEncryption key, SHA-384.
pub const SIG_RSA_PSS_RSAE_SHA384: u16 = 0x0805;

/// RSA-PSS under an rsaEncryption key, SHA-512.
pub const SIG_RSA_PSS_RSAE_SHA512: u16 = 0x0806;

/// Ed25519.
pub const SIG_ED25519: u16 = 0x0807;

/// Ed448.
pub const SIG_ED448: u16 = 0x0808;

/// RSA-PSS under a PSS key, SHA-256.
pub const SIG_RSA_PSS_PSS_SHA256: u16 = 0x0809;

/// RSA-PSS under a PSS key, SHA-384.
pub const SIG_RSA_PSS_PSS_SHA384: u16 = 0x080A;

/// RSA-PSS under a PSS key, SHA-512.
pub const SIG_RSA_PSS_PSS_SHA512: u16 = 0x080B;

/// The list terminator the TLS stack expects.
pub const SIG_ALGO_SENTINEL: u16 = 0xFFFF;

/// The key families the verifier tells apart.
#[derive(Debug, Clone, Copy, PartialEq, Eq, Structural)]
pub enum KeyFamily {
    Rsa,
    RsaPss,
    Ec,
    Ed25519,
    Ed448,
    Other,
}

/// The pinned public key: its family and its DER bytes.
#[derive(Debug, Clone)]
pub struct PinnedKey {
    pub family: KeyFamily,
    pub spki_der: Vec<u8>,
}

/// What OpenSSL answers for an RSA PKCS#1 v1.5 verification: whether the
/// call goes through at all, and if so whether the signature checks out —
/// a function of the scheme, the key bytes, the message and the signature
/// alone.
pub uninterp spec fn rsa_pkcs1_outcome(scheme: u16, key: Seq<u8>, data: Seq<u8>, sig: Seq<u8>) -> Option<bool>;

/// What OpenSSL answers for an RSA-PSS verification with digest-length
/// salt and matching MGF1 digest.
pub uninterp spec fn rsa_pss_outcome(scheme: u16, key: Seq<u8>, data: Seq<u8>, sig: Seq<u8>) -> Option<bool>;

/// What OpenSSL answers for an ECDSA verification.
pub uninterp spec fn ecdsa_outcome(scheme: u16, key: Seq<u8>, data: Seq<u8>, sig: Seq<u8>) -> Option<bool>;

/// What OpenSSL answers for an EdDSA verification in one-shot mode.
pub uninterp spec fn eddsa_outcome(scheme: u16, key: Seq<u8>, data: Seq<u8>, sig: Seq<u8>) -> Option<bool>;

/// The key family OpenSSL reads out of public-key DER bytes — a function
/// of the bytes alone.
pub uninterp spec fn family_of(key: Seq<u8>) -> KeyFamily;

/// Relies on openssl's `Verifier` with PKCS#1 v1.5 padding: parses the key
/// from DER, feeds the message, and asks whether the signature verifies;
/// the answer depends on the arguments alone.
#[verifier::external_body]
fn rsa_pkcs1_verify_call(key_der: &[u8], scheme: u16, data: &[u8], sig: &[u8]) -> (r: Result<
    bool,
    ClientError,
>)
    requires
        scheme == SIG_RSA_PKCS1_SHA256 || scheme == SIG_RSA_PKCS1_SHA384 || scheme
            == SIG_RSA_PKCS1_SHA512,
    ensures
        r is Ok <==> rsa_pkcs1_outcome(scheme, key_der@, data@, sig@) is Some,
        r matches Ok(b) ==> rsa_pkcs1_outcome(scheme, key_der@, data@, sig@) == Some(b),
{
    let digest = match scheme {
        SIG_RSA_PKCS1_SHA256 => openssl::hash::MessageDigest::sha256(),
        SIG_RSA_PKCS1_SHA384 => openssl::hash::MessageDigest::sha384(),
        _ => openssl::hash::MessageDigest::sha512(),
    };
    let key = openssl::pkey::PKey::public_key_from_der(key_der).map_err(|_| ClientError::new("key"))?;
    let mut v = openssl::sign::Verifier::new(digest, &key).map_err(|_| ClientError::new("setup"))?;
    if v.set_rsa_padding(openssl::rsa::Padding::PKCS1).is_err() || v.update(data).is_err() {
        return Err(ClientError::new("setup"));
    }
    v.verify(sig).map_err(|_| ClientError::new("verify"))
}

/// Relies on openssl's `Verifier` with PSS padding, digest-length salt and
/// MGF1 under the same digest; the answer depends on the arguments alone.
#[verifier::external_body]
fn rsa_pss_verify_call(key_der: &[u8], scheme: u16, data: &[u8], sig: &[u8]) -> (r: Result<
    bool,
    ClientError,
>)
    requires
        scheme == SIG_RSA_PSS_RSAE_SHA256 || scheme == SIG_RSA_PSS_RSAE_SHA384 || scheme
            == SIG_RSA_PSS_RSAE_SHA512 || scheme == SIG_RSA_PSS_PSS_SHA256 || scheme
            == SIG_RSA_PSS_PSS_SHA384 || scheme == SIG_RSA_PSS_PSS_SHA512,
    ensures
        r is Ok <==> rsa_pss_outcome(scheme, key_der@, data@, sig@) is Some,
        r matches Ok(b) ==> rsa_pss_outcome(scheme, key_der@, data@, sig@) == Some(b),
{
    let digest = match scheme {
        SIG_RSA_PSS_RSAE_SHA256 | SIG_RSA_PSS_PSS_SHA256 => openssl::hash::MessageDigest::sha256(),
        SIG_RSA_PSS_RSAE_SHA384 | SIG_RSA_PSS_PSS_SHA384 => openssl::hash::MessageDigest::sha384(),
        _ => openssl::hash::MessageDigest::sha512(),
    };
    let key = openssl::pkey::PKey::public_key_from_der(key_der).map_err(|_| ClientError::new("key"))?;
    let mut v = openssl::sign::Verifier::new(digest, &key).map_err(|_| ClientError::new("setup"))?;
    let salt = openssl::sign::RsaPssSaltlen::DIGEST_LENGTH;
    if v.set_rsa_padding(openssl::rsa::Padding::PKCS1_PSS).is_err() || v.set_rsa_pss_saltlen(salt).is_err() || v.set_rsa_mgf1_md(digest).is_err() || v.update(data).is_err() {
        return Err(ClientError::new("setup"));
    }
    v.verify(sig).map_err(|_| ClientError::new("verify"))
}

/// Relies on openssl's `Verifier` for ECDSA; the curve lives in the key,
/// and the answer depends on the arguments alone.
#[verifier::external_body]
fn ecdsa_verify_call(key_der: &[u8], scheme: u16, data: &[u8], sig: &[u8]) -> (r: Result<
    bool,
    ClientError,
>)
    requires
        scheme == SIG_ECDSA_SECP256R1_SHA256 || scheme == SIG_ECDSA_SECP384R1_SHA384 || scheme
            == SIG_ECDSA_SECP521R1_SHA512,
    ensures
        r is Ok <==> ecdsa_outcome(scheme, key_der@, data@, sig@) is Some,
        r matches Ok(b) ==> ecdsa_outcome(scheme, key_der@, data@, sig@) == Some(b),
{
    let digest = match scheme {
        SIG_ECDSA_SECP256R1_SHA256 => openssl::hash::MessageDigest::sha256(),
        SIG_ECDSA_SECP384R1_SHA384 => openssl::hash::MessageDigest::sha384(),
        _ => openssl::hash::MessageDigest::sha512(),
    };
    let key = openssl::pkey::PKey::public_key_from_der(key_der).map_err(|_| ClientError::new("key"))?;
    let mut v = openssl::sign::Verifier::new(digest, &key).map_err(|_| ClientError::new("setup"))?;
    if v.update(data).is_err() {
        return Err(ClientError::new("setup"));
    }
    v.verify(sig).map_err(|_| ClientError::new("verify"))
}

/// Relies on openssl's `Verifier` in one-shot mode, as EdDSA demands; the
/// answer depends on the arguments alone.
#[verifier::external_body]
fn eddsa_verify_call(key_der: &[u8], scheme: u16, data: &[u8], sig: &[u8]) -> (r: Result<
    bool,
    ClientError,
>)
    requires
        scheme == SIG_ED25519 || scheme == SIG_ED448,
    ensures
        r is Ok <==> eddsa_outcome(scheme, key_der@, data@, sig@) is Some,
        r matches Ok(b) ==> eddsa_outcome(scheme, key_der@, data@, sig@) == Some(b),
{
    let key = openssl::pkey::PKey::public_key_from_der(key_der).map_err(|_| ClientError::new("key"))?;
    let mut v = openssl::sign::Verifier::new_without_digest(&key).map_err(|_| ClientError::new("setup"))?;
    v.verify_oneshot(sig, data).map_err(|_| ClientError::new("verify"))
}

/// Relies on openssl's `PKey::id` to name the family a public key belongs
/// to; unknown ids and unparseable keys land in the catch-all family. The
/// answer depends on the bytes alone.
#[verifier::external_body]
fn key_family_call(key_der: &[u8]) -> (r: KeyFamily)
    ensures
        r == family_of(key_der@),
{
    let key = match openssl::pkey::PKey::public_key_from_der(key_der) {
        Ok(k) => k,
        Err(_) => return KeyFamily::Other,
    };
    let id = key.id();
    if id == openssl::pkey::Id::RSA { KeyFamily::Rsa }
    else if id == openssl::pkey::Id::RSA_PSS { KeyFamily::RsaPss }
    else if id == openssl::pkey::Id::EC { KeyFamily::Ec }
    else if id == openssl::pkey::Id::ED25519 { KeyFamily::Ed25519 }
    else if id == openssl::pkey::Id::ED448 { KeyFamily::Ed448 }
    else { KeyFamily::Other }
}

impl PinnedKey {
    /// Wraps a public key's DER bytes, asking OpenSSL for its family.
    pub fn from_der(spki_der: Vec<u8>) -> (r: PinnedKey)
        ensures
            r.spki_der@ == spki_der@,
            r.family == family_of(spki_der@),
    {
        let family = key_family_call(spki_der.as_slice());
        PinnedKey { family, spki_der }
    }
}

/// The scheme groups the dispatch tells apart.
#[derive(Debug, Clone, Copy, PartialEq, Eq, Structural)]
pub enum SchemeKind {
    Pkcs1,
    Pss,
    Ecdsa,
    Edwards25519,
    Edwards448,
    Unsupported,
}

/// Which group a TLS signature-scheme code belongs to.
pub open spec fn spec_scheme_kind(algo: u16) -> SchemeKind {
    if algo == SIG_RSA_PKCS1_SHA256 || algo == SIG_RSA_PKCS1_SHA384 || algo
        == SIG_RSA_PKCS1_SHA512 {
        SchemeKind::Pkcs1
    } else if algo == SIG_RSA_PSS_RSAE_SHA256 || algo == SIG_RSA_PSS_RSAE_SHA384 || algo
        == SIG_RSA_PSS_RSAE_SHA512 || algo == SIG_RSA_PSS_PSS_SHA256 || algo
        == SIG_RSA_PSS_PSS_SHA384 || algo == SIG_RSA_PSS_PSS_SHA512 {
        SchemeKind::Pss
    } else if algo == SIG_ECDSA_SECP256R1_SHA256 || algo == SIG_ECDSA_SECP384R1_SHA384 || algo
        == SIG_ECDSA_SECP521R1_SHA512 {
        SchemeKind::Ecdsa
    } else if algo == SIG_ED25519 {
        SchemeKind::Edwards25519
    } else if algo == SIG_ED448 {
        SchemeKind::Edwards448
    } else {
        SchemeKind::Unsupported
    }
}

/// Which key families a scheme group accepts.
pub open spec fn spec_family_accepted(kind: SchemeKind, family: KeyFamily) -> bool {
    match kind {
        SchemeKind::Pkcs1 => family is Rsa,
        SchemeKind::Pss => family is Rsa || family is RsaPss,
        SchemeKind::Ecdsa => family is Ec,
        SchemeKind::Edwards25519 => family is Ed25519,
        SchemeKind::Edwards448 => family is Ed448,
        SchemeKind::Unsupported => false,
    }
}

/// Whether the peer's leaf certificate is byte-for-byte the pinned one:
/// the whole of the pinning decision.
pub fn pinned_leaf_matches(leaf: &[u8], pinned: &[u8]) -> (r: bool)
    ensures
        r <==> leaf@ == pinned@,
{
    crate::bytestr::bytes_eq(leaf, pinned)
}

/// Whether a signature-verify call is the TLS stack's probe for algorithm
/// support: both buffers empty, to be answered with success.
pub fn is_probe_call(data_len: usize, sig_len: usize) -> (r: bool)
    ensures
        r <==> (data_len == 0 && sig_len == 0),
{
    data_len == 0 && sig_len == 0
}

/// Verifies one handshake signature under the pinned key.
///
/// An unknown scheme and a key of the wrong family are refused outright;
/// otherwise the primitive for the scheme's group answers, and a clean
/// answer is exactly what OpenSSL computes for these bytes.
pub fn verify_signature(key: &PinnedKey, algo: u16, data: &[u8], sig: &[u8]) -> (r: Result<
    bool,
    ClientError,
>)
    ensures
        spec_scheme_kind(algo) is Unsupported ==> r is Err,
        !spec_family_accepted(spec_scheme_kind(algo), key.family) ==> r is Err,
        (spec_scheme_kind(algo) is Pkcs1 && spec_family_accepted(
            spec_scheme_kind(algo),
            key.family,
        )) ==> ((r is Ok <==> rsa_pkcs1_outcome(algo, key.spki_der@, data@, sig@) is Some) && (
        r is Ok ==> rsa_pkcs1_outcome(algo, key.spki_der@, data@, sig@) == Some(r->Ok_0))),
        (spec_scheme_kind(algo) is Pss && spec_family_accepted(spec_scheme_kind(algo), key.family))
            ==> ((r is Ok <==> rsa_pss_outcome(algo, key.spki_der@, data@, sig@) is Some) && (
        r is Ok ==> rsa_pss_outcome(algo, key.spki_der@, data@, sig@) == Some(r->Ok_0))),
        (spec_scheme_kind(algo) is Ecdsa && spec_family_accepted(spec_scheme_kind(algo), key.family))
            ==> ((r is Ok <==> ecdsa_outcome(algo, key.spki_der@, data@, sig@) is Some) && (
        r is Ok ==> ecdsa_outcome(algo, key.spki_der@, data@, sig@) == Some(r->Ok_0))),
        ((spec_scheme_kind(algo) is Edwards25519 || spec_scheme_kind(algo) is Edwards448)
            && spec_family_accepted(spec_scheme_kind(algo), key.family)) ==> ((r is Ok
            <==> eddsa_outcome(algo, key.spki_der@, data@, sig@) is Some) && (r is Ok
            ==> eddsa_outcome(algo, key.spki_der@, data@, sig@) == Some(r->Ok_0))),
{
    if algo == SIG_RSA_PKCS1_SHA256 || algo == SIG_RSA_PKCS1_SHA384 || algo
        == SIG_RSA_PKCS1_SHA512 {
        if !matches!(key.family, KeyFamily::Rsa) {
            return Err(ClientError::new("the scheme expects an RSA key"));
        }
        return rsa_pkcs1_verify_call(key.spki_der.as_slice(), algo, data, sig);
    }
    if algo == SIG_RSA_PSS_RSAE_SHA256 || algo == SIG_RSA_PSS_RSAE_SHA384 || algo
        == SIG_RSA_PSS_RSAE_SHA512 || algo == SIG_RSA_PSS_PSS_SHA256 || algo
        == SIG_RSA_PSS_PSS_SHA384 || algo == SIG_RSA_PSS_PSS_SHA512 {
        if !(matches!(key.family, KeyFamily::Rsa) || matches!(key.family, KeyFamily::RsaPss)) {
            return Err(ClientError::new("the scheme expects an RSA or RSA-PSS key"));
        }
        return rsa_pss_verify_call(key.spki_der.as_slice(), algo, data, sig);
    }
    if algo == SIG_ECDSA_SECP256R1_SHA256 || algo == SIG_ECDSA_SECP384R1_SHA384 || algo
        == SIG_ECDSA_SECP521R1_SHA512 {
        if !matches!(key.family, KeyFamily::Ec) {
            return Err(ClientError::new("the scheme expects an EC key"));
        }
        return ecdsa_verify_call(key.spki_der.as_slice(), algo, data, sig);
    }
    if algo == SIG_ED25519 {
        if !matches!(key.family, KeyFamily::Ed25519) {
            return Err(ClientError::new("the scheme expects an Ed25519 key"));
        }
        return eddsa_verify_call(key.spki_der.as_slice(), algo, data, sig);
    }
    if algo == SIG_ED448 {
        if !matches!(key.family, KeyFamily::Ed448) {
            return Err(ClientError::new("the scheme expects an Ed448 key"));
        }
        return eddsa_verify_call(key.spki_der.as_slice(), algo, data, sig);
    }
    Err(ClientError::new("the signature scheme is not supported"))
}

/// The algorithm list announced to the TLS stack, in preference order,
/// ending in the sentinel.
pub fn pinning_algos() -> (r: Vec<u16>)
    ensures
        r@ =~= seq![
            SIG_ED25519, SIG_ED448, SIG_ECDSA_SECP256R1_SHA256, SIG_ECDSA_SECP384R1_SHA384,
            SIG_ECDSA_SECP521R1_SHA512, SIG_RSA_PSS_RSAE_SHA256, SIG_RSA_PSS_RSAE_SHA384,
            SIG_RSA_PSS_RSAE_SHA512, SIG_RSA_PSS_PSS_SHA256, SIG_RSA_PSS_PSS_SHA384,
            SIG_RSA_PSS_PSS_SHA512, SIG_RSA_PKCS1_SHA256, SIG_RSA_PKCS1_SHA384,
            SIG_RSA_PKCS1_SHA512, SIG_ALGO_SENTINEL,
        ],
{
    let mut algos: Vec<u16> = Vec::new();
    algos.push(SIG_ED25519);
    algos.push(SIG_ED448);
    algos.push(SIG_ECDSA_SECP256R1_SHA256);
    algos.push(SIG_ECDSA_SECP384R1_SHA384);
    algos.push(SIG_ECDSA_SECP521R1_SHA512);
    algos.push(SIG_RSA_PSS_RSAE_SHA256);
    algos.push(SIG_RSA_PSS_RSAE_SHA384);
    algos.push(SIG_RSA_PSS_RSAE_SHA512);
    algos.push(SIG_RSA_PSS_PSS_SHA256);
    algos.push(SIG_RSA_PSS_PSS_SHA384);
    algos.push(SIG_RSA_PSS_PSS_SHA512);
    algos.push(SIG_RSA_PKCS1_SHA256);
    algos.push(SIG_RSA_PKCS1_SHA384);
    algos.push(SIG_RSA_PKCS1_SHA512);
    algos.push(SIG_ALGO_SENTINEL);
    algos
}

} // verus!
