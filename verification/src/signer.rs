//! Producing signed blocks, signed transactions and proofs with a key pair.

use vstd::prelude::*;
use crate::codec;
use crate::codec::{block_digest, ts_digest};
use crate::crypto;
use crate::crypto::{ecdsa_recover, ecdsa_sign, ecdsa_verifies, KeyPair};
use crate::model::{Block, Proof, SignedBlock, SignedTransaction, Transaction};

verus! {

impl Block {
    /// Wraps the block with the producer's identity: the signature covers
    /// the hash of the block's canonical encoding, verifies under the
    /// signer's key, and recovery from it returns that key.
    pub fn sign(&self, keypair: &KeyPair) -> (r: SignedBlock)
        requires
            keypair.wf(),
        ensures
            r@.block == self@,
            r@.signer == keypair@.pubkey,
            r@.signature == ecdsa_sign(keypair@.privkey, block_digest(self@)),
            ecdsa_verifies(keypair@.pubkey, r@.signature, block_digest(self@)),
            ecdsa_recover(r@.signature, block_digest(self@)) == Some(keypair@.pubkey),
            self.wf() ==> r.wf(),
    {
        let digest = codec::block_hash(self);
        let signature = match crypto::sign(keypair.privkey(), &digest) {
            Some(s) => s,
            None => vstd::pervasive::unreached(),
        };
        SignedBlock { block: self.clone(), signer: keypair.pubkey().clone(), signature }
    }
}

/// Signs a transaction's cached content hash, yielding a signed transaction
/// whose sender recovery returns the signer's key.
pub fn sign_transaction(tx: &Transaction, keypair: &KeyPair) -> (r: SignedTransaction)
    requires
        keypair.wf(),
        tx.wf(),
    ensures
        r@.transaction == tx@,
        r@.signature == ecdsa_sign(keypair@.privkey, tx@.hash),
        ecdsa_verifies(keypair@.pubkey, r@.signature, tx@.hash),
        ecdsa_recover(r@.signature, tx@.hash) == Some(keypair@.pubkey),
        r.wf(),
{
    let digest = tx.hash();
    let signature = match crypto::sign(keypair.privkey(), &digest) {
        Some(s) => s,
        None => vstd::pervasive::unreached(),
    };
    SignedTransaction { transaction: tx.clone(), signature }
}

/// A miner's proof for a moment: the timestamp signed under the miner's
/// key over its 32-byte big-endian encoding; the proof signature verifies
/// under that key.
pub fn make_proof(timestamp: u64, keypair: &KeyPair) -> (r: Proof)
    requires
        keypair.wf(),
    ensures
        r@.timestamp == timestamp,
        r@.key == keypair@.pubkey,
        r@.signature == ecdsa_sign(keypair@.privkey, ts_digest(timestamp)),
        ecdsa_verifies(keypair@.pubkey, r@.signature, ts_digest(timestamp)),
        r.wf(),
{
    let digest = codec::timestamp_digest(timestamp);
    let signature = match crypto::sign(keypair.privkey(), &digest) {
        Some(s) => s,
        None => vstd::pervasive::unreached(),
    };
    Proof { timestamp, key: keypair.pubkey().clone(), signature }
}

} // verus!
