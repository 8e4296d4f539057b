//! The signing and verification adapter: Keccak-256 digests and recoverable
//! ECDSA signatures over the secp256k1 curve, plus the uniform pick used for
//! fork resolution. Every call into the outside crates stands behind a
//! trusted item; all logic above them is verified.

use vstd::prelude::*;
use crate::error::Error;
use crate::hashes::{H256, H512, H520};
use tiny_keccak::Hasher;

verus! {

/// The Keccak-256 digest of a byte string (32 bytes); the digest depends on
/// the bytes alone.
pub uninterp spec fn keccak_of(data: Seq<u8>) -> Seq<u8>;

/// Whether 32 bytes are a valid secp256k1 secret key (nonzero and below the
/// curve order); names the success of `libsecp256k1::SecretKey::parse_slice`.
pub uninterp spec fn sk_valid(privkey: Seq<u8>) -> bool;

/// The 65-byte recoverable signature that `libsecp256k1::sign` produces for
/// a secret key and a 32-byte digest; signing is deterministic (an RFC 6979
/// style nonce), so the result depends on the arguments alone.
pub uninterp spec fn ecdsa_sign(privkey: Seq<u8>, digest: Seq<u8>) -> Seq<u8>;

/// Whether a 65-byte signature verifies against a 64-byte public key over a
/// 32-byte digest; names the result of `libsecp256k1::verify`, with a
/// signature or key that does not parse counted as failure.
pub uninterp spec fn ecdsa_verifies(pubkey: Seq<u8>, sig: Seq<u8>, digest: Seq<u8>) -> bool;

/// The 64-byte public key recovered from a 65-byte signature and a 32-byte
/// digest, or `None` where `libsecp256k1::recover` fails.
pub uninterp spec fn ecdsa_recover(sig: Seq<u8>, digest: Seq<u8>) -> Option<Seq<u8>>;

/// The 64-byte public key of a valid secret key; names
/// `libsecp256k1::PublicKey::from_secret_key`.
pub uninterp spec fn pubkey_of(privkey: Seq<u8>) -> Seq<u8>;

/// Relies on tiny_keccak's Keccak-256 (`Keccak::v256`): the digest is a
/// function of the input bytes and is 32 bytes long.
#[verifier::external_body]
fn keccak256_raw(data: &Vec<u8>) -> (r: Vec<u8>)
    ensures
        r@ == keccak_of(data@),
        r@.len() == 32,
{
    let mut k = tiny_keccak::Keccak::v256();
    k.update(data);
    let mut out = [0u8; 32];
    k.finalize(&mut out);
    out.to_vec()
}

/// Relies on `libsecp256k1::SecretKey::parse_slice` (fails exactly on an
/// invalid scalar) and `libsecp256k1::sign` (deterministic; returns a 64-byte
/// signature and a recovery id, serialized here as 65 bytes). The produced
/// signature is canonical (low-s, non-overflowing scalars, recovery id below
/// 4), so `libsecp256k1::verify` accepts it under the signer's public key and
/// `libsecp256k1::recover` returns that key — the inversion the recovery id
/// exists for, exercised by the crate's own test suite.
#[verifier::external_body]
fn sign_raw(privkey: &Vec<u8>, digest: &Vec<u8>) -> (r: Option<Vec<u8>>)
    requires
        privkey@.len() == 32,
        digest@.len() == 32,
    ensures
        r is Some <==> sk_valid(privkey@),
        r matches Some(s) ==> s@ == ecdsa_sign(privkey@, digest@) && s@.len() == 65,
        r matches Some(s) ==> ecdsa_verifies(pubkey_of(privkey@), s@, digest@),
        r matches Some(s) ==> ecdsa_recover(s@, digest@) == Some(pubkey_of(privkey@)),
{
    let sk = libsecp256k1::SecretKey::parse_slice(privkey).ok()?;
    let msg = libsecp256k1::Message::parse_slice(digest).ok()?;
    let (sig, rid) = libsecp256k1::sign(&msg, &sk);
    let mut out = sig.serialize().to_vec();
    out.push(rid.serialize());
    Some(out)
}

/// Relies on `libsecp256k1::verify`; a public key or signature that does not
/// parse (`PublicKey::parse_slice` raw format, `Signature::parse_standard_slice`)
/// yields `false`. The result depends on the three arguments alone.
#[verifier::external_body]
fn verify_raw(pubkey: &Vec<u8>, sig: &Vec<u8>, digest: &Vec<u8>) -> (r: bool)
    requires
        pubkey@.len() == 64,
        sig@.len() == 65,
        digest@.len() == 32,
    ensures
        r == ecdsa_verifies(pubkey@, sig@, digest@),
{
    let pk = libsecp256k1::PublicKey::parse_slice(pubkey, Some(libsecp256k1::PublicKeyFormat::Raw));
    let s = libsecp256k1::Signature::parse_standard_slice(&sig[..64]);
    let m = libsecp256k1::Message::parse_slice(digest);
    match (pk, s, m) {
        (Ok(pk), Ok(s), Ok(m)) => libsecp256k1::verify(&m, &s, &pk),
        _ => false,
    }
}

/// Relies on `libsecp256k1::recover` (and `RecoveryId::parse`,
/// `Signature::parse_standard_slice`): the recovered key depends on the
/// signature and digest alone; the 65-byte serialized key is returned without
/// its one-byte tag.
#[verifier::external_body]
fn recover_raw(sig: &Vec<u8>, digest: &Vec<u8>) -> (r: Option<Vec<u8>>)
    requires
        sig@.len() == 65,
        digest@.len() == 32,
    ensures
        r is Some <==> ecdsa_recover(sig@, digest@) is Some,
        r matches Some(p) ==> Some(p@) == ecdsa_recover(sig@, digest@) && p@.len() == 64,
{
    let rid = libsecp256k1::RecoveryId::parse(sig[64]).ok()?;
    let s = libsecp256k1::Signature::parse_standard_slice(&sig[..64]).ok()?;
    let msg = libsecp256k1::Message::parse_slice(digest).ok()?;
    let pk = libsecp256k1::recover(&msg, &s, &rid).ok()?;
    Some(pk.serialize()[1..65].to_vec())
}

/// Relies on `libsecp256k1::SecretKey::parse_slice` and
/// `libsecp256k1::PublicKey::from_secret_key`: the public key of a valid
/// secret key, serialized without its one-byte tag.
#[verifier::external_body]
fn pubkey_raw(privkey: &Vec<u8>) -> (r: Option<Vec<u8>>)
    requires
        privkey@.len() == 32,
    ensures
        r is Some <==> sk_valid(privkey@),
        r matches Some(p) ==> p@ == pubkey_of(privkey@) && p@.len() == 64,
{
    let sk = libsecp256k1::SecretKey::parse_slice(privkey).ok()?;
    let pk = libsecp256k1::PublicKey::from_secret_key(&sk);
    Some(pk.serialize()[1..65].to_vec())
}

/// Relies on `rand::random_range`: a uniformly chosen index below `n`; the
/// range must not be empty.
#[verifier::external_body]
pub fn random_index(n: usize) -> (r: usize)
    requires
        n > 0,
    ensures
        r < n,
{
    rand::random_range(0..n)
}

/// Hashes a byte string with the chain's digest function (Keccak-256).
pub fn keccak256(data: &Vec<u8>) -> (r: H256)
    ensures
        r@ == keccak_of(data@),
        r.wf(),
{
    let out = keccak256_raw(data);
    match H256::from_vec(out) {
        Some(h) => h,
        None => vstd::pervasive::unreached(),
    }
}

/// Signs a 32-byte digest with a secret key; fails exactly when the secret
/// key is invalid. The signature verifies under the signer's public key, and
/// recovery from it returns that key.
pub fn sign(privkey: &H256, digest: &H256) -> (r: Option<H520>)
    requires
        privkey.wf(),
        digest.wf(),
    ensures
        r is Some <==> sk_valid(privkey@),
        r matches Some(s) ==> s@ == ecdsa_sign(privkey@, digest@) && s.wf(),
        r matches Some(s) ==> ecdsa_verifies(pubkey_of(privkey@), s@, digest@),
        r matches Some(s) ==> ecdsa_recover(s@, digest@) == Some(pubkey_of(privkey@)),
{
    match sign_raw(privkey.as_bytes(), digest.as_bytes()) {
        Some(out) => match H520::from_vec(out) {
            Some(s) => Some(s),
            None => vstd::pervasive::unreached(),
        },
        None => None,
    }
}

/// Verifies a 65-byte signature against a 64-byte public key over a 32-byte
/// digest.
pub fn verify(pubkey: &H512, sig: &H520, digest: &H256) -> (r: bool)
    requires
        pubkey.wf(),
        sig.wf(),
        digest.wf(),
    ensures
        r == ecdsa_verifies(pubkey@, sig@, digest@),
{
    verify_raw(pubkey.as_bytes(), sig.as_bytes(), digest.as_bytes())
}

/// Recovers the signer's public key from a signature and the signed digest.
pub fn recover(sig: &H520, digest: &H256) -> (r: Result<H512, Error>)
    requires
        sig.wf(),
        digest.wf(),
    ensures
        r is Ok <==> ecdsa_recover(sig@, digest@) is Some,
        r matches Ok(p) ==> Some(p@) == ecdsa_recover(sig@, digest@) && p.wf(),
        r is Err ==> r == Result::<H512, Error>::Err(Error::InvalidSignature),
{
    match recover_raw(sig.as_bytes(), digest.as_bytes()) {
        Some(out) => match H512::from_vec(out) {
            Some(p) => Ok(p),
            None => vstd::pervasive::unreached(),
        },
        None => Err(Error::InvalidSignature),
    }
}

/// The ghost value of a key pair: the secret key and its public key.
pub ghost struct KeyPairV {
    pub privkey: Seq<u8>,
    pub pubkey: Seq<u8>,
}

/// A secp256k1 key pair: a valid secret key together with its 64-byte public
/// key.
pub struct KeyPair {
    privkey: H256,
    pubkey: H512,
}

impl View for KeyPair {
    type V = KeyPairV;

    closed spec fn view(&self) -> KeyPairV {
        KeyPairV { privkey: self.privkey@, pubkey: self.pubkey@ }
    }
}

impl KeyPair {
    /// The pair is well formed: the secret key is valid and the public key
    /// is the one derived from it.
    pub open spec fn wf(&self) -> bool {
        &&& self@.privkey.len() == 32
        &&& self@.pubkey.len() == 64
        &&& sk_valid(self@.privkey)
        &&& self@.pubkey == pubkey_of(self@.privkey)
    }

    /// Builds the pair for a 32-byte secret key; fails exactly when the
    /// secret key is invalid.
    pub fn from_privkey(privkey: H256) -> (r: Option<KeyPair>)
        requires
            privkey.wf(),
        ensures
            r is Some <==> sk_valid(privkey@),
            r matches Some(kp) ==> kp@.privkey == privkey@ && kp.wf(),
    {
        match pubkey_raw(privkey.as_bytes()) {
            Some(out) => match H512::from_vec(out) {
                Some(pubkey) => Some(KeyPair { privkey, pubkey }),
                None => vstd::pervasive::unreached(),
            },
            None => None,
        }
    }

    /// The secret key.
    pub fn privkey(&self) -> (r: &H256)
        ensures
            r@ == self@.privkey,
    {
        &self.privkey
    }

    /// The public key.
    pub fn pubkey(&self) -> (r: &H512)
        ensures
            r@ == self@.pubkey,
    {
        &self.pubkey
    }
}

} // verus!
