//! The canonical binary encoding of the model types: deterministic and
//! byte-exact, so equal field values give identical bytes on every host.
//! Integers are 8-byte big-endian; variable-length byte strings carry a
//! length prefix; fixed-width strings are raw. The decoders accept exactly
//! the encodings: decoding and re-encoding gives the input back.

use vstd::prelude::*;
use crate::crypto;
use crate::crypto::keccak_of;
use crate::hashes::H256;
use crate::model::{
    block_v_wf, signed_block_v_wf, Block, BlockV, Proof, ProofV, SignedBlock, SignedBlockV,
    SignedTransaction, SignedTransactionV, Transaction, TransactionV,
};

verus! {

/// The 8-byte big-endian encoding of an unsigned 64-bit integer.
pub open spec fn be_u64(n: u64) -> Seq<u8> {
    seq![
        (n >> 56) as u8,
        (n >> 48) as u8,
        (n >> 40) as u8,
        (n >> 32) as u8,
        (n >> 24) as u8,
        (n >> 16) as u8,
        (n >> 8) as u8,
        n as u8,
    ]
}

/// The canonical encoding of a transaction: length-prefixed payload, then
/// the 32-byte cached hash.
pub open spec fn enc_transaction(t: TransactionV) -> Seq<u8> {
    be_u64(t.data.len() as u64) + t.data + t.hash
}

/// The canonical encoding of a signed transaction: the transaction, then
/// the 65-byte signature.
pub open spec fn enc_signed_transaction(t: SignedTransactionV) -> Seq<u8> {
    enc_transaction(t.transaction) + t.signature
}

/// The canonical encoding of a proof: the timestamp, the 64-byte key, the
/// 65-byte signature.
pub open spec fn enc_proof(p: ProofV) -> Seq<u8> {
    be_u64(p.timestamp) + p.key + p.signature
}

/// The concatenated encodings of a transaction list, in order.
pub open spec fn enc_tx_list(ts: Seq<SignedTransactionV>) -> Seq<u8>
    decreases ts.len(),
{
    if ts.len() == 0 {
        Seq::empty()
    } else {
        enc_tx_list(ts.drop_last()) + enc_signed_transaction(ts.last())
    }
}

/// The canonical encoding of a block: height, parent hash, proof, then the
/// counted transaction list.
pub open spec fn enc_block(b: BlockV) -> Seq<u8> {
    be_u64(b.height) + b.pre_hash + enc_proof(b.proof) + be_u64(b.transactions.len() as u64)
        + enc_tx_list(b.transactions)
}

/// The canonical encoding of a signed block: the block, the 64-byte signer,
/// the 65-byte signature.
pub open spec fn enc_signed_block(b: SignedBlockV) -> Seq<u8> {
    enc_block(b.block) + b.signer + b.signature
}

/// A block's identity: the digest of its canonical encoding.
pub open spec fn block_digest(b: BlockV) -> Seq<u8> {
    keccak_of(enc_block(b))
}

/// The 32-byte big-endian encoding of a proof timestamp, the digest a
/// proof signature covers.
pub open spec fn ts_digest(t: u64) -> Seq<u8> {
    Seq::new(24, |i: int| 0u8) + be_u64(t)
}

/// Appends the 8-byte big-endian encoding of `n`.
fn write_u64(out: &mut Vec<u8>, n: u64)
    ensures
        final(out)@ == old(out)@ + be_u64(n),
{
    out.push((n >> 56) as u8);
    out.push((n >> 48) as u8);
    out.push((n >> 40) as u8);
    out.push((n >> 32) as u8);
    out.push((n >> 24) as u8);
    out.push((n >> 16) as u8);
    out.push((n >> 8) as u8);
    out.push(n as u8);
    proof {
        assert(out@ =~= old(out)@ + be_u64(n));
    }
}

/// Appends all bytes of `data`.
fn write_all(out: &mut Vec<u8>, data: &Vec<u8>)
    ensures
        final(out)@ == old(out)@ + data@,
{
    let mut i: usize = 0;
    while i < data.len()
        invariant
            i <= data@.len(),
            out@ == old(out)@ + data@.subrange(0, i as int),
        decreases data@.len() - i,
    {
        out.push(data[i]);
        proof {
            assert(out@ =~= old(out)@ + data@.subrange(0, i + 1));
        }
        i += 1;
    }
    proof {
        assert(data@.subrange(0, data@.len() as int) =~= data@);
    }
}

/// Appends the canonical encoding of a transaction.
fn write_transaction(out: &mut Vec<u8>, t: &Transaction)
    ensures
        final(out)@ == old(out)@ + enc_transaction(t@),
{
    write_u64(out, t.data.len() as u64);
    write_all(out, &t.data);
    write_all(out, t.hash.as_bytes());
    proof {
        assert(out@ =~= old(out)@ + enc_transaction(t@));
    }
}

/// Appends the canonical encoding of a signed transaction.
fn write_signed_transaction(out: &mut Vec<u8>, t: &SignedTransaction)
    ensures
        final(out)@ == old(out)@ + enc_signed_transaction(t@),
{
    write_transaction(out, &t.transaction);
    write_all(out, t.signature.as_bytes());
    proof {
        assert(out@ =~= old(out)@ + enc_signed_transaction(t@));
    }
}

/// Appends the canonical encoding of a block.
fn write_block(out: &mut Vec<u8>, b: &Block)
    ensures
        final(out)@ == old(out)@ + enc_block(b@),
{
    write_u64(out, b.height);
    write_all(out, b.pre_hash.as_bytes());
    write_u64(out, b.proof.timestamp);
    write_all(out, b.proof.key.as_bytes());
    write_all(out, b.proof.signature.as_bytes());
    write_u64(out, b.transactions.len() as u64);
    let ghost head = old(out)@ + be_u64(b@.height) + b@.pre_hash + enc_proof(b@.proof) + be_u64(
        b@.transactions.len() as u64,
    );
    proof {
        assert(out@ =~= head);
        assert(enc_tx_list(b@.transactions.subrange(0, 0)) =~= Seq::<u8>::empty());
        assert(out@ =~= head + enc_tx_list(b@.transactions.subrange(0, 0)));
    }
    let mut i: usize = 0;
    while i < b.transactions.len()
        invariant
            i <= b.transactions@.len(),
            b@.transactions.len() == b.transactions@.len(),
            out@ == head + enc_tx_list(b@.transactions.subrange(0, i as int)),
            forall|j: int|
                0 <= j < b.transactions@.len() ==> (#[trigger] b.transactions@[j])@
                    == b@.transactions[j],
        decreases b.transactions@.len() - i,
    {
        write_signed_transaction(out, &b.transactions[i]);
        proof {
            assert(b@.transactions.subrange(0, i + 1).drop_last() =~= b@.transactions.subrange(
                0,
                i as int,
            ));
            assert(b@.transactions.subrange(0, i + 1).last() == b@.transactions[i as int]);
            assert(out@ =~= head + enc_tx_list(b@.transactions.subrange(0, i + 1)));
        }
        i += 1;
    }
    proof {
        assert(b@.transactions.subrange(0, b@.transactions.len() as int) =~= b@.transactions);
        assert(out@ =~= old(out)@ + enc_block(b@));
    }
}

/// The canonical encoding of a transaction.
pub fn encode_transaction(t: &Transaction) -> (r: Vec<u8>)
    ensures
        r@ == enc_transaction(t@),
{
    let mut out: Vec<u8> = Vec::new();
    write_transaction(&mut out, t);
    proof {
        assert(out@ =~= enc_transaction(t@));
    }
    out
}

/// The canonical encoding of a signed transaction.
pub fn encode_signed_transaction(t: &SignedTransaction) -> (r: Vec<u8>)
    ensures
        r@ == enc_signed_transaction(t@),
{
    let mut out: Vec<u8> = Vec::new();
    write_signed_transaction(&mut out, t);
    proof {
        assert(out@ =~= enc_signed_transaction(t@));
    }
    out
}

/// The canonical encoding of a block.
pub fn encode_block(b: &Block) -> (r: Vec<u8>)
    ensures
        r@ == enc_block(b@),
{
    let mut out: Vec<u8> = Vec::new();
    write_block(&mut out, b);
    proof {
        assert(out@ =~= enc_block(b@));
    }
    out
}

/// The canonical encoding of a signed block.
pub fn encode_signed_block(b: &SignedBlock) -> (r: Vec<u8>)
    ensures
        r@ == enc_signed_block(b@),
{
    let mut out: Vec<u8> = Vec::new();
    write_block(&mut out, &b.block);
    write_all(&mut out, b.signer.as_bytes());
    write_all(&mut out, b.signature.as_bytes());
    proof {
        assert(out@ =~= enc_signed_block(b@));
    }
    out
}

/// A block's identity hash: the digest of its canonical encoding.
pub fn block_hash(b: &Block) -> (r: H256)
    ensures
        r@ == block_digest(b@),
        r.wf(),
{
    let e = encode_block(b);
    crypto::keccak256(&e)
}

/// The 32-byte big-endian digest a proof signature covers.
pub fn timestamp_digest(t: u64) -> (r: H256)
    ensures
        r@ == ts_digest(t),
        r.wf(),
{
    let mut v: Vec<u8> = vec![0u8; 24];
    write_u64(&mut v, t);
    proof {
        assert(v@ =~= ts_digest(t));
    }
    match H256::from_vec(v) {
        Some(h) => h,
        None => vstd::pervasive::unreached(),
    }
}

/// The unsigned 64-bit integer read big-endian at `i`.
pub open spec fn u64_from_be(s: Seq<u8>, i: int) -> u64 {
    ((s[i] as u64) << 56 | (s[i + 1] as u64) << 48 | (s[i + 2] as u64) << 40 | (s[i + 3] as u64)
        << 32 | (s[i + 4] as u64) << 24 | (s[i + 5] as u64) << 16 | (s[i + 6] as u64) << 8 | (s[i
        + 7] as u64)) as u64
}

/// Reads an 8-byte big-endian integer; `None` past the end.
pub open spec fn dec_u64(s: Seq<u8>, i: int) -> Option<(u64, int)> {
    if 0 <= i && i + 8 <= s.len() {
        Some((u64_from_be(s, i), i + 8))
    } else {
        None
    }
}

/// Reads `n` raw bytes; `None` past the end.
pub open spec fn dec_fixed(s: Seq<u8>, i: int, n: int) -> Option<(Seq<u8>, int)> {
    if 0 <= i && 0 <= n && i + n <= s.len() {
        Some((s.subrange(i, i + n), i + n))
    } else {
        None
    }
}

/// Reads one transaction.
pub open spec fn dec_transaction(s: Seq<u8>, i: int) -> Option<(TransactionV, int)> {
    match dec_u64(s, i) {
        None => None,
        Some((len, j)) => match dec_fixed(s, j, len as int) {
            None => None,
            Some((data, j2)) => match dec_fixed(s, j2, 32) {
                None => None,
                Some((hash, j3)) => Some((TransactionV { data, hash }, j3)),
            },
        },
    }
}

/// Reads one signed transaction.
pub open spec fn dec_signed_transaction(s: Seq<u8>, i: int) -> Option<(SignedTransactionV, int)> {
    match dec_transaction(s, i) {
        None => None,
        Some((t, j)) => match dec_fixed(s, j, 65) {
            None => None,
            Some((sig, j2)) => Some((SignedTransactionV { transaction: t, signature: sig }, j2)),
        },
    }
}

/// Reads one proof.
pub open spec fn dec_proof(s: Seq<u8>, i: int) -> Option<(ProofV, int)> {
    match dec_u64(s, i) {
        None => None,
        Some((ts, j)) => match dec_fixed(s, j, 64) {
            None => None,
            Some((key, j2)) => match dec_fixed(s, j2, 65) {
                None => None,
                Some((sig, j3)) => Some(
                    (ProofV { timestamp: ts, key, signature: sig }, j3),
                ),
            },
        },
    }
}

/// Reads `n` signed transactions in order.
pub open spec fn dec_txs(s: Seq<u8>, i: int, n: nat) -> Option<(Seq<SignedTransactionV>, int)>
    decreases n,
{
    if n == 0 {
        Some((Seq::empty(), i))
    } else {
        match dec_txs(s, i, (n - 1) as nat) {
            None => None,
            Some((ts, j)) => match dec_signed_transaction(s, j) {
                None => None,
                Some((t, j2)) => Some((ts.push(t), j2)),
            },
        }
    }
}

/// Reads one block.
pub open spec fn dec_block(s: Seq<u8>, i: int) -> Option<(BlockV, int)> {
    match dec_u64(s, i) {
        None => None,
        Some((height, j)) => match dec_fixed(s, j, 32) {
            None => None,
            Some((pre, j2)) => match dec_proof(s, j2) {
                None => None,
                Some((proof, j3)) => match dec_u64(s, j3) {
                    None => None,
                    Some((count, j4)) => match dec_txs(s, j4, count as nat) {
                        None => None,
                        Some((txs, j5)) => Some(
                            (
                                BlockV {
                                    height,
                                    pre_hash: pre,
                                    proof,
                                    transactions: txs,
                                },
                                j5,
                            ),
                        ),
                    },
                },
            },
        },
    }
}

/// Reads one signed block.
pub open spec fn dec_signed_block(s: Seq<u8>, i: int) -> Option<(SignedBlockV, int)> {
    match dec_block(s, i) {
        None => None,
        Some((b, j)) => match dec_fixed(s, j, 64) {
            None => None,
            Some((signer, j2)) => match dec_fixed(s, j2, 65) {
                None => None,
                Some((sig, j3)) => Some(
                    (SignedBlockV { block: b, signer, signature: sig }, j3),
                ),
            },
        },
    }
}

proof fn lemma_be_bytes(b0: u8, b1: u8, b2: u8, b3: u8, b4: u8, b5: u8, b6: u8, b7: u8)
    ensures
        ({
            let n = ((b0 as u64) << 56 | (b1 as u64) << 48 | (b2 as u64) << 40 | (b3 as u64) << 32
                | (b4 as u64) << 24 | (b5 as u64) << 16 | (b6 as u64) << 8 | (b7 as u64)) as u64;
            &&& (n >> 56) as u8 == b0
            &&& (n >> 48) as u8 == b1
            &&& (n >> 40) as u8 == b2
            &&& (n >> 32) as u8 == b3
            &&& (n >> 24) as u8 == b4
            &&& (n >> 16) as u8 == b5
            &&& (n >> 8) as u8 == b6
            &&& n as u8 == b7
        }),
{
    assert(({
        let n = ((b0 as u64) << 56 | (b1 as u64) << 48 | (b2 as u64) << 40 | (b3 as u64) << 32 | (
        b4 as u64) << 24 | (b5 as u64) << 16 | (b6 as u64) << 8 | (b7 as u64)) as u64;
        &&& (n >> 56) as u8 == b0
        &&& (n >> 48) as u8 == b1
        &&& (n >> 40) as u8 == b2
        &&& (n >> 32) as u8 == b3
        &&& (n >> 24) as u8 == b4
        &&& (n >> 16) as u8 == b5
        &&& (n >> 8) as u8 == b6
        &&& n as u8 == b7
    })) by (bit_vector);
}

proof fn lemma_u64_compose(n: u64)
    ensures
        (((n >> 56) as u8 as u64) << 56 | ((n >> 48) as u8 as u64) << 48 | ((n >> 40) as u8 as u64)
            << 40 | ((n >> 32) as u8 as u64) << 32 | ((n >> 24) as u8 as u64) << 24 | ((n
            >> 16) as u8 as u64) << 16 | ((n >> 8) as u8 as u64) << 8 | (n as u8 as u64)) as u64
            == n,
{
    assert((((n >> 56) as u8 as u64) << 56 | ((n >> 48) as u8 as u64) << 48 | ((n
        >> 40) as u8 as u64) << 40 | ((n >> 32) as u8 as u64) << 32 | ((n >> 24) as u8 as u64) << 24
        | ((n >> 16) as u8 as u64) << 16 | ((n >> 8) as u8 as u64) << 8 | (n as u8 as u64)) as u64
        == n) by (bit_vector);
}

proof fn lemma_dec_u64_sound(s: Seq<u8>, i: int)
    requires
        dec_u64(s, i) is Some,
    ensures
        ({
            let (n, j) = dec_u64(s, i)->Some_0;
            &&& j == i + 8
            &&& i + 8 <= s.len()
            &&& 0 <= i
            &&& s.subrange(i, j) == be_u64(n)
        }),
{
    let (n, j) = dec_u64(s, i)->Some_0;
    lemma_be_bytes(s[i], s[i + 1], s[i + 2], s[i + 3], s[i + 4], s[i + 5], s[i + 6], s[i + 7]);
    assert(s.subrange(i, j) =~= be_u64(n));
}

proof fn lemma_dec_u64_complete(s: Seq<u8>, i: int, n: u64)
    requires
        0 <= i,
        i + 8 <= s.len(),
        s.subrange(i, i + 8) == be_u64(n),
    ensures
        dec_u64(s, i) == Some((n, i + 8)),
{
    lemma_u64_compose(n);
    assert(s[i] == be_u64(n)[0]);
    assert(s[i + 1] == be_u64(n)[1]);
    assert(s[i + 2] == be_u64(n)[2]);
    assert(s[i + 3] == be_u64(n)[3]);
    assert(s[i + 4] == be_u64(n)[4]);
    assert(s[i + 5] == be_u64(n)[5]);
    assert(s[i + 6] == be_u64(n)[6]);
    assert(s[i + 7] == be_u64(n)[7]);
}

proof fn lemma_dec_transaction_sound(s: Seq<u8>, i: int)
    requires
        dec_transaction(s, i) is Some,
    ensures
        ({
            let (t, j) = dec_transaction(s, i)->Some_0;
            &&& 0 <= i <= j <= s.len()
            &&& s.subrange(i, j) == enc_transaction(t)
            &&& t.hash.len() == 32
            &&& t.data.len() <= u64::MAX
        }),
{
    let (t, j) = dec_transaction(s, i)->Some_0;
    let (len, j1) = dec_u64(s, i)->Some_0;
    lemma_dec_u64_sound(s, i);
    assert(t.data == s.subrange(j1, j1 + len as int));
    assert(t.data.len() == len as int);
    assert(s.subrange(i, j) =~= s.subrange(i, j1) + s.subrange(j1, j1 + len as int) + s.subrange(
        j1 + len as int,
        j,
    ));
    assert(s.subrange(i, j) =~= enc_transaction(t));
}

proof fn lemma_dec_signed_transaction_sound(s: Seq<u8>, i: int)
    requires
        dec_signed_transaction(s, i) is Some,
    ensures
        ({
            let (t, j) = dec_signed_transaction(s, i)->Some_0;
            &&& 0 <= i <= j <= s.len()
            &&& s.subrange(i, j) == enc_signed_transaction(t)
            &&& t.transaction.hash.len() == 32
            &&& t.transaction.data.len() <= u64::MAX
            &&& t.signature.len() == 65
        }),
{
    let (t, j) = dec_signed_transaction(s, i)->Some_0;
    let (t0, j1) = dec_transaction(s, i)->Some_0;
    lemma_dec_transaction_sound(s, i);
    assert(s.subrange(i, j) =~= s.subrange(i, j1) + s.subrange(j1, j));
    assert(s.subrange(i, j) =~= enc_signed_transaction(t));
}

proof fn lemma_dec_proof_sound(s: Seq<u8>, i: int)
    requires
        dec_proof(s, i) is Some,
    ensures
        ({
            let (p, j) = dec_proof(s, i)->Some_0;
            &&& 0 <= i <= j <= s.len()
            &&& j == i + 137
            &&& s.subrange(i, j) == enc_proof(p)
            &&& p.key.len() == 64
            &&& p.signature.len() == 65
        }),
{
    let (p, j) = dec_proof(s, i)->Some_0;
    lemma_dec_u64_sound(s, i);
    assert(s.subrange(i, j) =~= s.subrange(i, i + 8) + s.subrange(i + 8, i + 72) + s.subrange(
        i + 72,
        j,
    ));
    assert(s.subrange(i, j) =~= enc_proof(p));
}

proof fn lemma_dec_txs_sound(s: Seq<u8>, i: int, n: nat)
    requires
        dec_txs(s, i, n) is Some,
        0 <= i <= s.len(),
    ensures
        ({
            let (ts, j) = dec_txs(s, i, n)->Some_0;
            &&& i <= j <= s.len()
            &&& s.subrange(i, j) == enc_tx_list(ts)
            &&& ts.len() == n
            &&& forall|k: int|
                0 <= k < ts.len() ==> (#[trigger] ts[k]).transaction.hash.len() == 32
                    && ts[k].transaction.data.len() <= u64::MAX && ts[k].signature.len() == 65
        }),
    decreases n,
{
    let (ts, j) = dec_txs(s, i, n)->Some_0;
    if n == 0 {
        assert(s.subrange(i, j) =~= enc_tx_list(ts));
    } else {
        let (ts0, j0) = dec_txs(s, i, (n - 1) as nat)->Some_0;
        lemma_dec_txs_sound(s, i, (n - 1) as nat);
        lemma_dec_signed_transaction_sound(s, j0);
        let (t, j1) = dec_signed_transaction(s, j0)->Some_0;
        assert(ts == ts0.push(t));
        assert(ts.drop_last() =~= ts0);
        assert(s.subrange(i, j) =~= s.subrange(i, j0) + s.subrange(j0, j));
        assert(s.subrange(i, j) =~= enc_tx_list(ts));
    }
}

proof fn lemma_dec_block_sound(s: Seq<u8>, i: int)
    requires
        dec_block(s, i) is Some,
    ensures
        ({
            let (b, j) = dec_block(s, i)->Some_0;
            &&& 0 <= i <= j <= s.len()
            &&& s.subrange(i, j) == enc_block(b)
            &&& block_v_wf(b)
            &&& b.transactions.len() <= u64::MAX
            &&& forall|k: int|
                0 <= k < b.transactions.len() ==> (
                #[trigger] b.transactions[k]).transaction.data.len() <= u64::MAX
        }),
{
    let (b, j) = dec_block(s, i)->Some_0;
    let (height, j1) = dec_u64(s, i)->Some_0;
    let (pre, j2) = dec_fixed(s, j1, 32)->Some_0;
    let (proof_v, j3) = dec_proof(s, j2)->Some_0;
    let (count, j4) = dec_u64(s, j3)->Some_0;
    let (txs, j5) = dec_txs(s, j4, count as nat)->Some_0;
    lemma_dec_u64_sound(s, i);
    lemma_dec_proof_sound(s, j2);
    lemma_dec_u64_sound(s, j3);
    lemma_dec_txs_sound(s, j4, count as nat);
    assert(txs.len() as u64 == count);
    assert(s.subrange(i, j) =~= s.subrange(i, j1) + s.subrange(j1, j2) + s.subrange(j2, j3)
        + s.subrange(j3, j4) + s.subrange(j4, j5));
    assert(s.subrange(i, j) =~= enc_block(b));
}

proof fn lemma_dec_signed_block_sound(s: Seq<u8>, i: int)
    requires
        dec_signed_block(s, i) is Some,
    ensures
        ({
            let (b, j) = dec_signed_block(s, i)->Some_0;
            &&& 0 <= i <= j <= s.len()
            &&& s.subrange(i, j) == enc_signed_block(b)
            &&& signed_block_v_wf(b)
        }),
{
    let (b, j) = dec_signed_block(s, i)->Some_0;
    let (b0, j1) = dec_block(s, i)->Some_0;
    lemma_dec_block_sound(s, i);
    assert(s.subrange(i, j) =~= s.subrange(i, j1) + s.subrange(j1, j1 + 64) + s.subrange(
        j1 + 64,
        j,
    ));
    assert(s.subrange(i, j) =~= enc_signed_block(b));
}

/// Decoding then re-encoding gives the input back: any byte string that
/// decodes as a transaction is exactly that transaction's canonical
/// encoding.
pub proof fn lemma_transaction_round_trip(s: Seq<u8>, t: TransactionV)
    requires
        spec_decode_transaction(s) == Some(t),
    ensures
        enc_transaction(t) == s,
{
    lemma_dec_transaction_sound(s, 0);
    assert(s.subrange(0, s.len() as int) =~= s);
}

/// Decoding then re-encoding gives the input back, for signed
/// transactions.
pub proof fn lemma_signed_transaction_round_trip(s: Seq<u8>, t: SignedTransactionV)
    requires
        spec_decode_signed_transaction(s) == Some(t),
    ensures
        enc_signed_transaction(t) == s,
{
    lemma_dec_signed_transaction_sound(s, 0);
    assert(s.subrange(0, s.len() as int) =~= s);
}

/// Decoding then re-encoding gives the input back, for blocks.
pub proof fn lemma_block_round_trip(s: Seq<u8>, b: BlockV)
    requires
        spec_decode_block(s) == Some(b),
    ensures
        enc_block(b) == s,
{
    lemma_dec_block_sound(s, 0);
    assert(s.subrange(0, s.len() as int) =~= s);
}

/// Decoding then re-encoding gives the input back, for signed blocks.
pub proof fn lemma_signed_block_round_trip(s: Seq<u8>, b: SignedBlockV)
    requires
        spec_decode_signed_block(s) == Some(b),
    ensures
        enc_signed_block(b) == s,
{
    lemma_dec_signed_block_sound(s, 0);
    assert(s.subrange(0, s.len() as int) =~= s);
}

/// What a whole byte string decodes to as a block: the parse must consume
/// every byte.
pub open spec fn spec_decode_block(s: Seq<u8>) -> Option<BlockV> {
    match dec_block(s, 0) {
        Some((b, n)) => if n == s.len() {
            Some(b)
        } else {
            None
        },
        None => None,
    }
}

/// What a whole byte string decodes to as a signed block.
pub open spec fn spec_decode_signed_block(s: Seq<u8>) -> Option<SignedBlockV> {
    match dec_signed_block(s, 0) {
        Some((b, n)) => if n == s.len() {
            Some(b)
        } else {
            None
        },
        None => None,
    }
}

/// What a whole byte string decodes to as a transaction.
pub open spec fn spec_decode_transaction(s: Seq<u8>) -> Option<TransactionV> {
    match dec_transaction(s, 0) {
        Some((t, n)) => if n == s.len() {
            Some(t)
        } else {
            None
        },
        None => None,
    }
}

/// What a whole byte string decodes to as a signed transaction.
pub open spec fn spec_decode_signed_transaction(s: Seq<u8>) -> Option<SignedTransactionV> {
    match dec_signed_transaction(s, 0) {
        Some((t, n)) => if n == s.len() {
            Some(t)
        } else {
            None
        },
        None => None,
    }
}

fn read_u64(bytes: &Vec<u8>, pos: usize) -> (r: Option<(u64, usize)>)
    ensures
        r is Some <==> dec_u64(bytes@, pos as int) is Some,
        r matches Some((n, j)) ==> dec_u64(bytes@, pos as int) == Some((n, j as int)),
{
    if pos <= bytes.len() && bytes.len() - pos >= 8 {
        let n = (bytes[pos] as u64) << 56 | (bytes[pos + 1] as u64) << 48 | (bytes[pos
            + 2] as u64) << 40 | (bytes[pos + 3] as u64) << 32 | (bytes[pos + 4] as u64) << 24 | (
        bytes[pos + 5] as u64) << 16 | (bytes[pos + 6] as u64) << 8 | (bytes[pos + 7] as u64);
        proof {
            assert(n == u64_from_be(bytes@, pos as int));
        }
        Some((n, pos + 8))
    } else {
        None
    }
}

fn read_fixed(bytes: &Vec<u8>, pos: usize, n: usize) -> (r: Option<(Vec<u8>, usize)>)
    ensures
        r is Some <==> dec_fixed(bytes@, pos as int, n as int) is Some,
        r matches Some((v, j)) ==> dec_fixed(bytes@, pos as int, n as int) matches Some((vs, js))
            && vs == v@ && js == j as int,
{
    let blen = bytes.len();
    if pos <= blen && blen - pos >= n {
        let mut v: Vec<u8> = Vec::new();
        let mut i: usize = 0;
        while i < n
            invariant
                i <= n,
                pos + n <= blen,
                blen == bytes@.len(),
                v@ == bytes@.subrange(pos as int, pos + i),
            decreases n - i,
        {
            v.push(bytes[pos + i]);
            proof {
                assert(v@ =~= bytes@.subrange(pos as int, pos + i + 1));
            }
            i += 1;
        }
        Some((v, pos + n))
    } else {
        None
    }
}

fn read_transaction(bytes: &Vec<u8>, pos: usize) -> (r: Option<(Transaction, usize)>)
    ensures
        r is Some <==> dec_transaction(bytes@, pos as int) is Some,
        r matches Some((t, j)) ==> dec_transaction(bytes@, pos as int) matches Some((tv, js)) && tv
            == t@ && js == j as int && t.wf(),
{
    let (len, j1) = match read_u64(bytes, pos) {
        Some(x) => x,
        None => {
            return None;
        },
    };
    if len > bytes.len() as u64 - j1 as u64 {
        proof {
            assert(dec_fixed(bytes@, j1 as int, len as int) is None);
        }
        return None;
    }
    let (data, j2) = match read_fixed(bytes, j1, len as usize) {
        Some(x) => x,
        None => {
            return None;
        },
    };
    let (hashv, j3) = match read_fixed(bytes, j2, 32) {
        Some(x) => x,
        None => {
            return None;
        },
    };
    let hash = match H256::from_vec(hashv) {
        Some(h) => h,
        None => vstd::pervasive::unreached(),
    };
    Some((Transaction { data, hash }, j3))
}

fn read_signed_transaction(bytes: &Vec<u8>, pos: usize) -> (r: Option<(SignedTransaction, usize)>)
    ensures
        r is Some <==> dec_signed_transaction(bytes@, pos as int) is Some,
        r matches Some((t, j)) ==> dec_signed_transaction(bytes@, pos as int) matches Some(
            (tv, js),
        ) && tv == t@ && js == j as int && t.wf(),
{
    let (t, j1) = match read_transaction(bytes, pos) {
        Some(x) => x,
        None => {
            return None;
        },
    };
    let (sigv, j2) = match read_fixed(bytes, j1, 65) {
        Some(x) => x,
        None => {
            return None;
        },
    };
    let signature = match crate::hashes::H520::from_vec(sigv) {
        Some(s) => s,
        None => vstd::pervasive::unreached(),
    };
    Some((SignedTransaction { transaction: t, signature }, j2))
}

fn read_proof(bytes: &Vec<u8>, pos: usize) -> (r: Option<(Proof, usize)>)
    ensures
        r is Some <==> dec_proof(bytes@, pos as int) is Some,
        r matches Some((p, j)) ==> dec_proof(bytes@, pos as int) matches Some((pv, js)) && pv == p@
            && js == j as int && p.wf(),
{
    let (ts, j1) = match read_u64(bytes, pos) {
        Some(x) => x,
        None => {
            return None;
        },
    };
    let (keyv, j2) = match read_fixed(bytes, j1, 64) {
        Some(x) => x,
        None => {
            return None;
        },
    };
    let (sigv, j3) = match read_fixed(bytes, j2, 65) {
        Some(x) => x,
        None => {
            return None;
        },
    };
    let key = match crate::hashes::H512::from_vec(keyv) {
        Some(k) => k,
        None => vstd::pervasive::unreached(),
    };
    let signature = match crate::hashes::H520::from_vec(sigv) {
        Some(s) => s,
        None => vstd::pervasive::unreached(),
    };
    Some((Proof { timestamp: ts, key, signature }, j3))
}

fn read_block(bytes: &Vec<u8>, pos: usize) -> (r: Option<(Block, usize)>)
    ensures
        r is Some <==> dec_block(bytes@, pos as int) is Some,
        r matches Some((b, j)) ==> dec_block(bytes@, pos as int) matches Some((bv, js)) && bv == b@
            && js == j as int && b.wf(),
{
    let (height, j1) = match read_u64(bytes, pos) {
        Some(x) => x,
        None => {
            return None;
        },
    };
    let (prev, j2) = match read_fixed(bytes, j1, 32) {
        Some(x) => x,
        None => {
            return None;
        },
    };
    let (proof_v, j3) = match read_proof(bytes, j2) {
        Some(x) => x,
        None => {
            return None;
        },
    };
    let (count, j4) = match read_u64(bytes, j3) {
        Some(x) => x,
        None => {
            return None;
        },
    };
    let mut txs: Vec<SignedTransaction> = Vec::new();
    let mut k: u64 = 0;
    let mut cur = j4;
    while k < count
        invariant
            k <= count,
            dec_u64(bytes@, pos as int) == Some((height, j1 as int)),
            dec_fixed(bytes@, j1 as int, 32) matches Some((pv, pj)) && pv == prev@ && pj
                == j2 as int,
            dec_proof(bytes@, j2 as int) matches Some((prv, prj)) && prv == proof_v@ && prj
                == j3 as int,
            dec_u64(bytes@, j3 as int) == Some((count, j4 as int)),
            proof_v.wf(),
            prev@.len() == 32,
            dec_txs(bytes@, j4 as int, k as nat) matches Some((tsv, js)) && tsv == txs.deep_view()
                && js == cur as int,
            forall|i: int| 0 <= i < txs@.len() ==> (#[trigger] txs@[i]).wf(),
        decreases count - k,
    {
        let (t, j5) = match read_signed_transaction(bytes, cur) {
            Some(x) => x,
            None => {
                proof {
                    assert(dec_signed_transaction(bytes@, cur as int) is None);
                    assert(dec_txs(bytes@, j4 as int, (k + 1) as nat) is None);
                    lemma_dec_txs_none(bytes@, j4 as int, (k + 1) as nat, count as nat);
                    assert(dec_txs(bytes@, j4 as int, count as nat) is None);
                    assert(dec_block(bytes@, pos as int) is None);
                }
                return None;
            },
        };
        txs.push(t);
        proof {
            assert(txs.deep_view() =~= dec_txs(bytes@, j4 as int, (k + 1) as nat)->Some_0.0);
        }
        cur = j5;
        k = k + 1;
    }
    let pre_hash = match H256::from_vec(prev) {
        Some(h) => h,
        None => vstd::pervasive::unreached(),
    };
    let b = Block { height, pre_hash, proof: proof_v, transactions: txs };
    proof {
        assert(b@ == dec_block(bytes@, pos as int)->Some_0.0);
    }
    Some((b, cur))
}

proof fn lemma_dec_txs_none(s: Seq<u8>, i: int, k: nat, n: nat)
    requires
        k <= n,
        dec_txs(s, i, k) is None,
    ensures
        dec_txs(s, i, n) is None,
    decreases n,
{
    if n > k {
        lemma_dec_txs_none(s, i, k, (n - 1) as nat);
    }
}

/// Decodes a byte string as a transaction; the bytes must be exactly one
/// canonical encoding.
pub fn decode_transaction(bytes: &Vec<u8>) -> (r: Option<Transaction>)
    ensures
        r matches Some(t) ==> spec_decode_transaction(bytes@) == Some(t@) && t.wf(),
        r is None <==> spec_decode_transaction(bytes@) is None,
{
    match read_transaction(bytes, 0) {
        Some((t, j)) => if j == bytes.len() {
            Some(t)
        } else {
            None
        },
        None => None,
    }
}

/// Decodes a byte string as a signed transaction.
pub fn decode_signed_transaction(bytes: &Vec<u8>) -> (r: Option<SignedTransaction>)
    ensures
        r matches Some(t) ==> spec_decode_signed_transaction(bytes@) == Some(t@) && t.wf(),
        r is None <==> spec_decode_signed_transaction(bytes@) is None,
{
    match read_signed_transaction(bytes, 0) {
        Some((t, j)) => if j == bytes.len() {
            Some(t)
        } else {
            None
        },
        None => None,
    }
}

/// Decodes a byte string as a block.
pub fn decode_block(bytes: &Vec<u8>) -> (r: Option<Block>)
    ensures
        r matches Some(b) ==> spec_decode_block(bytes@) == Some(b@) && b.wf(),
        r is None <==> spec_decode_block(bytes@) is None,
{
    match read_block(bytes, 0) {
        Some((b, j)) => if j == bytes.len() {
            Some(b)
        } else {
            None
        },
        None => None,
    }
}

/// Decodes a byte string as a signed block.
pub fn decode_signed_block(bytes: &Vec<u8>) -> (r: Option<SignedBlock>)
    ensures
        r matches Some(b) ==> spec_decode_signed_block(bytes@) == Some(b@) && b.wf(),
        r is None <==> spec_decode_signed_block(bytes@) is None,
{
    let (b, j1) = match read_block(bytes, 0) {
        Some(x) => x,
        None => {
            return None;
        },
    };
    let (signerv, j2) = match read_fixed(bytes, j1, 64) {
        Some(x) => x,
        None => {
            return None;
        },
    };
    let (sigv, j3) = match read_fixed(bytes, j2, 65) {
        Some(x) => x,
        None => {
            return None;
        },
    };
    if j3 != bytes.len() {
        return None;
    }
    let signer = match crate::hashes::H512::from_vec(signerv) {
        Some(s) => s,
        None => vstd::pervasive::unreached(),
    };
    let signature = match crate::hashes::H520::from_vec(sigv) {
        Some(s) => s,
        None => vstd::pervasive::unreached(),
    };
    Some(SignedBlock { block: b, signer, signature })
}

} // verus!
