//! The block and transaction model: plain value types whose ghost views the
//! rest of the library states its contracts over.

use vstd::prelude::*;
use crate::crypto;
use crate::crypto::{keccak_of, ecdsa_recover};
use crate::error::Error;
use crate::hashes::{H256, H512, H520};

verus! {

/// The ghost value of a transaction.
#[verifier::ext_equal]
pub ghost struct TransactionV {
    pub data: Seq<u8>,
    pub hash: Seq<u8>,
}

/// A transaction: an opaque byte payload and its cached 32-byte content
/// hash.
///
/// The cache is the producer's responsibility: a transaction is built by
/// filling `data` and then storing `cal_hash()` into `hash` (as the pool
/// and the codec callers do). Setting the payload does not touch the
/// cache, so a value whose payload changed after the cache was written
/// carries the old digest until the producer refreshes it.
#[derive(Debug, PartialEq, Eq)]
pub struct Transaction {
    /// Transaction data.
    pub data: Vec<u8>,
    /// The cached digest of `data`, written by the producer from
    /// `cal_hash`.
    pub hash: H256,
}

impl View for Transaction {
    type V = TransactionV;

    open spec fn view(&self) -> TransactionV {
        TransactionV { data: self.data@, hash: self.hash@ }
    }
}

impl DeepView for Transaction {
    type V = TransactionV;

    open spec fn deep_view(&self) -> TransactionV {
        self@
    }
}

impl Transaction {
    /// The cached hash holds 32 bytes.
    pub open spec fn wf(&self) -> bool {
        self@.hash.len() == 32
    }

    /// An empty transaction with an all-zero cached hash.
    pub fn new() -> (r: Transaction)
        ensures
            r@.data == Seq::<u8>::empty(),
            r@.hash == Seq::<u8>::new(32, |i: int| 0u8),
            r.wf(),
    {
        let r = Transaction { data: Vec::new(), hash: H256::zero() };
        proof {
            assert(r@.data =~= Seq::<u8>::empty());
        }
        r
    }

    /// The digest of the payload.
    pub fn cal_hash(&self) -> (r: H256)
        ensures
            r@ == keccak_of(self@.data),
            r.wf(),
    {
        crypto::keccak256(&self.data)
    }

    /// The cached hash of the transaction.
    pub fn hash(&self) -> (r: H256)
        ensures
            r@ == self@.hash,
    {
        self.hash.clone()
    }

    /// Replaces the payload; the cached hash is left as it is, and it is
    /// the caller's task to refresh it from `cal_hash` before the value is
    /// hashed, signed or encoded.
    pub fn set_data(&mut self, data: Vec<u8>)
        ensures
            final(self)@.data == data@,
            final(self)@.hash == old(self)@.hash,
    {
        self.data = data;
    }
}

impl Clone for Transaction {
    fn clone(&self) -> (r: Self)
        ensures
            r@ == self@,
    {
        let r = Transaction { data: self.data.clone(), hash: self.hash.clone() };
        proof {
            assert(r.data@ =~= self.data@);
            assert(r@ =~= self@);
        }
        r
    }
}

/// The ghost value of a signed transaction.
#[verifier::ext_equal]
pub ghost struct SignedTransactionV {
    pub transaction: TransactionV,
    pub signature: Seq<u8>,
}

/// A transaction together with the 65-byte signature of its sender over the
/// cached content hash.
#[derive(Debug, PartialEq, Eq)]
pub struct SignedTransaction {
    pub transaction: Transaction,
    pub signature: H520,
}

impl View for SignedTransaction {
    type V = SignedTransactionV;

    open spec fn view(&self) -> SignedTransactionV {
        SignedTransactionV { transaction: self.transaction@, signature: self.signature@ }
    }
}

impl DeepView for SignedTransaction {
    type V = SignedTransactionV;

    open spec fn deep_view(&self) -> SignedTransactionV {
        self@
    }
}

impl SignedTransaction {
    /// The inner transaction and the signature have their fixed widths.
    pub open spec fn wf(&self) -> bool {
        &&& self@.transaction.hash.len() == 32
        &&& self@.signature.len() == 65
    }

    /// An empty signed transaction with an all-zero signature.
    pub fn new() -> (r: SignedTransaction)
        ensures
            r@.transaction.data == Seq::<u8>::empty(),
            r@.transaction.hash == Seq::<u8>::new(32, |i: int| 0u8),
            r@.signature == Seq::<u8>::new(65, |i: int| 0u8),
            r.wf(),
    {
        SignedTransaction { transaction: Transaction::new(), signature: H520::zero() }
    }

    /// The cached hash of the inner transaction.
    pub fn hash(&self) -> (r: H256)
        ensures
            r@ == self@.transaction.hash,
    {
        self.transaction.hash()
    }

    /// Recovers the public key of the sender from the signature and the
    /// cached content hash.
    pub fn recover_public(&self) -> (r: Result<H512, Error>)
        requires
            self.wf(),
        ensures
            r is Ok <==> ecdsa_recover(self@.signature, self@.transaction.hash) is Some,
            r matches Ok(p) ==> Some(p@) == ecdsa_recover(self@.signature, self@.transaction.hash),
            r is Err ==> r == Result::<H512, Error>::Err(Error::InvalidSignature),
    {
        let digest = self.transaction.hash();
        crypto::recover(&self.signature, &digest)
    }
}

impl Clone for SignedTransaction {
    fn clone(&self) -> (r: Self)
        ensures
            r@ == self@,
    {
        let r = SignedTransaction {
            transaction: self.transaction.clone(),
            signature: self.signature.clone(),
        };
        proof {
            assert(r@ =~= self@);
        }
        r
    }
}

/// The ghost value of a proof.
#[verifier::ext_equal]
pub ghost struct ProofV {
    pub timestamp: u64,
    pub key: Seq<u8>,
    pub signature: Seq<u8>,
}

/// A miner's right to extend the chain at a moment: a timestamp signed by
/// the miner's key.
pub struct Proof {
    /// Milliseconds since the Unix epoch.
    pub timestamp: u64,
    /// The 64-byte miner public key.
    pub key: H512,
    /// The 65-byte signature over the 32-byte big-endian encoding of
    /// `timestamp` under `key`.
    pub signature: H520,
}

impl View for Proof {
    type V = ProofV;

    open spec fn view(&self) -> ProofV {
        ProofV { timestamp: self.timestamp, key: self.key@, signature: self.signature@ }
    }
}

impl Proof {
    /// The key and the signature have their fixed widths.
    pub open spec fn wf(&self) -> bool {
        &&& self@.key.len() == 64
        &&& self@.signature.len() == 65
    }
}

impl Clone for Proof {
    fn clone(&self) -> (r: Self)
        ensures
            r@ == self@,
    {
        let r = Proof {
            timestamp: self.timestamp,
            key: self.key.clone(),
            signature: self.signature.clone(),
        };
        proof {
            assert(r@ =~= self@);
        }
        r
    }
}

/// The ghost value of a block.
#[verifier::ext_equal]
pub ghost struct BlockV {
    pub height: u64,
    pub pre_hash: Seq<u8>,
    pub proof: ProofV,
    pub transactions: Seq<SignedTransactionV>,
}

/// A unit of chain extension: a height, the parent's hash, a proof, and an
/// ordered list of transactions.
pub struct Block {
    pub height: u64,
    /// The 32-byte digest of the parent block's canonical encoding; all
    /// zeroes for a block of height 1.
    pub pre_hash: H256,
    pub proof: Proof,
    pub transactions: Vec<SignedTransaction>,
}

impl View for Block {
    type V = BlockV;

    open spec fn view(&self) -> BlockV {
        BlockV {
            height: self.height,
            pre_hash: self.pre_hash@,
            proof: self.proof@,
            transactions: self.transactions.deep_view(),
        }
    }
}

/// Whether a ghost block value has all its byte strings at their fixed
/// widths.
pub open spec fn block_v_wf(b: BlockV) -> bool {
    &&& b.pre_hash.len() == 32
    &&& b.proof.key.len() == 64
    &&& b.proof.signature.len() == 65
    &&& forall|i: int|
        0 <= i < b.transactions.len() ==> (#[trigger] b.transactions[i]).transaction.hash.len()
            == 32 && b.transactions[i].signature.len() == 65
}

impl Block {
    /// All byte strings of the block have their fixed widths.
    pub open spec fn wf(&self) -> bool {
        block_v_wf(self@)
    }

    /// Whether this block claims the first height. `Ok(true)` exactly for
    /// height 1 with an all-zero parent hash; a height-1 block with any
    /// other parent hash is malformed, as is the reserved height 0.
    pub fn is_first(&self) -> (r: Result<bool, Error>)
        ensures
            r == Result::<bool, Error>::Ok(true) <==> self@.height == 1 && self@.pre_hash
                == Seq::<u8>::new(self@.pre_hash.len(), |i: int| 0u8),
            r == Result::<bool, Error>::Ok(false) <==> self@.height != 0 && self@.height != 1,
            r is Err <==> r == Result::<bool, Error>::Err(Error::Malformed) && (self@.height == 0
                || (self@.height == 1 && self@.pre_hash != Seq::<u8>::new(
                self@.pre_hash.len(),
                |i: int| 0u8,
            ))),
    {
        if self.height == 1 {
            if self.pre_hash.is_zero() {
                Ok(true)
            } else {
                Err(Error::Malformed)
            }
        } else if self.height == 0 {
            Err(Error::Malformed)
        } else {
            Ok(false)
        }
    }
}

impl Clone for Block {
    fn clone(&self) -> (r: Self)
        ensures
            r@ == self@,
    {
        let r = Block {
            height: self.height,
            pre_hash: self.pre_hash.clone(),
            proof: self.proof.clone(),
            transactions: self.transactions.clone(),
        };
        proof {
            assert(r.transactions.deep_view() =~= self.transactions.deep_view());
            assert(r@ =~= self@);
        }
        r
    }
}

/// The ghost value of a signed block.
#[verifier::ext_equal]
pub ghost struct SignedBlockV {
    pub block: BlockV,
    pub signer: Seq<u8>,
    pub signature: Seq<u8>,
}

/// A block wrapped with the identity of its producer: a 64-byte signer key
/// and a 65-byte signature over the hash of the block's canonical encoding.
pub struct SignedBlock {
    pub block: Block,
    pub signer: H512,
    pub signature: H520,
}

impl View for SignedBlock {
    type V = SignedBlockV;

    open spec fn view(&self) -> SignedBlockV {
        SignedBlockV { block: self.block@, signer: self.signer@, signature: self.signature@ }
    }
}

/// Whether a ghost signed-block value has all its byte strings at their
/// fixed widths.
pub open spec fn signed_block_v_wf(b: SignedBlockV) -> bool {
    &&& block_v_wf(b.block)
    &&& b.signer.len() == 64
    &&& b.signature.len() == 65
}

impl SignedBlock {
    /// All byte strings have their fixed widths.
    pub open spec fn wf(&self) -> bool {
        signed_block_v_wf(self@)
    }
}

impl Clone for SignedBlock {
    fn clone(&self) -> (r: Self)
        ensures
            r@ == self@,
    {
        let r = SignedBlock {
            block: self.block.clone(),
            signer: self.signer.clone(),
            signature: self.signature.clone(),
        };
        proof {
            assert(r@ =~= self@);
        }
        r
    }
}

} // verus!
