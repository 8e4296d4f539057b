use sleepy::chain::Chain;
use sleepy::codec::block_hash;
use sleepy::crypto::KeyPair;
use sleepy::error::Error;
use sleepy::hashes::{FixedBytes, H256};
use sleepy::model::{Block, SignedBlock};
use sleepy::signer::make_proof;

const NOW: u64 = 1_000_000;

fn keypair() -> KeyPair {
    let mut secret = vec![0u8; 32];
    secret[31] = 1;
    let privkey: H256 = FixedBytes::from_vec(secret).unwrap();
    KeyPair::from_privkey(privkey).unwrap()
}

fn zero_hash() -> H256 {
    FixedBytes::from_vec(vec![0u8; 32]).unwrap()
}

fn mk_block(height: u64, pre_hash: H256, ts: u64) -> SignedBlock {
    let kp = keypair();
    let proof = make_proof(ts, &kp);
    let block = Block { height, pre_hash, proof, transactions: Vec::new() };
    block.sign(&kp)
}

fn hash_of(sb: &SignedBlock) -> H256 {
    block_hash(&sb.block)
}

#[test]
fn linear_extension() {
    // S-style: admit height 1, then height 2.
    let mut chain = Chain::new();
    let b1 = mk_block(1, zero_hash(), 1000);
    let h1 = hash_of(&b1);
    let b2 = mk_block(2, h1.clone(), 2000);
    let h2 = hash_of(&b2);

    assert_eq!(chain.insert(&b1, NOW), Ok(()));
    let (height, head) = chain.status();
    assert_eq!(height, 1);
    assert!(head == h1);

    assert_eq!(chain.insert(&b2, NOW), Ok(()));
    let (height, head) = chain.status();
    assert_eq!(height, 2);
    assert!(head == h2);

    assert!(chain.main_at(1).unwrap() == h1);
    assert!(chain.main_at(2).unwrap() == h2);
    let f1 = chain.forks_at(1);
    assert_eq!(f1.len(), 1);
    assert!(f1[0] == h1);
    let f2 = chain.forks_at(2);
    assert_eq!(f2.len(), 1);
    assert!(f2[0] == h2);
}

#[test]
fn orphan_adoption() {
    // A child within height reach whose parent is missing is parked in the
    // parent bucket and adopted the moment the parent is admitted.
    let mut chain = Chain::new();
    let b1 = mk_block(1, zero_hash(), 1000);
    assert_eq!(chain.insert(&b1, NOW), Ok(()));

    let b1x = mk_block(1, zero_hash(), 1500);
    let h1x = hash_of(&b1x);
    let b2x = mk_block(2, h1x.clone(), 2500);
    let h2x = hash_of(&b2x);

    assert_eq!(chain.insert(&b2x, NOW), Err(Error::MissParent));
    assert!(chain.is_parked(&h2x));
    assert_eq!(chain.parked_len(), 1);

    assert_eq!(chain.insert(&b1x, NOW), Ok(()));
    let (height, head) = chain.status();
    assert_eq!(height, 2);
    assert!(head == h2x);
    assert!(chain.main_at(2).unwrap() == h2x);
    assert_eq!(chain.parked_len(), 0);
}

#[test]
fn early_child_waits_in_the_height_bucket() {
    // Submitted before any parent could exist, a height-2 block is out of
    // height reach and parks in the height bucket; a replay tick after the
    // first height is admitted brings it in.
    let mut chain = Chain::new();
    let b1 = mk_block(1, zero_hash(), 1000);
    let b2 = mk_block(2, hash_of(&b1), 2000);
    let h2 = hash_of(&b2);

    assert_eq!(chain.insert(&b2, NOW), Err(Error::FutureHeight));
    assert!(chain.is_parked(&h2));
    assert_eq!(chain.insert(&b1, NOW), Ok(()));
    chain.replay(NOW);
    let (height, head) = chain.status();
    assert_eq!(height, 2);
    assert!(head == h2);
    assert_eq!(chain.parked_len(), 0);
}

#[test]
fn height_future_replay() {
    let mut chain = Chain::new();
    let b1 = mk_block(1, zero_hash(), 1000);
    let h1 = hash_of(&b1);
    let b2 = mk_block(2, h1.clone(), 2000);
    let h2 = hash_of(&b2);
    let b3 = mk_block(3, h2.clone(), 3000);
    let h3 = hash_of(&b3);

    assert_eq!(chain.insert(&b3, NOW), Err(Error::FutureHeight));
    assert!(chain.is_parked(&h3));

    assert_eq!(chain.insert(&b1, NOW), Ok(()));
    assert_eq!(chain.insert(&b2, NOW), Ok(()));

    chain.replay(NOW);
    let (height, head) = chain.status();
    assert_eq!(height, 3);
    assert!(head == h3);
    assert_eq!(chain.parked_len(), 0);
}

#[test]
fn timestamp_future_replay() {
    let mut chain = Chain::new();
    let b1 = mk_block(1, zero_hash(), NOW + 60_000);
    let h1 = hash_of(&b1);

    assert_eq!(chain.insert(&b1, NOW), Err(Error::FutureTime));
    assert!(chain.is_parked(&h1));

    // A tick before the timestamp has passed changes nothing.
    chain.replay(NOW);
    assert!(chain.is_parked(&h1));

    // One tick after the timestamp admits it.
    chain.replay(NOW + 60_001);
    let (height, head) = chain.status();
    assert_eq!(height, 1);
    assert!(head == h1);
    assert_eq!(chain.parked_len(), 0);
}

#[test]
fn fork_at_tip() {
    let mut chain = Chain::new();
    let b1 = mk_block(1, zero_hash(), 1000);
    let h1 = hash_of(&b1);
    let b2a = mk_block(2, h1.clone(), 2000);
    let h2a = hash_of(&b2a);
    let b2b = mk_block(2, h1.clone(), 3000);
    let h2b = hash_of(&b2b);

    assert_eq!(chain.insert(&b1, NOW), Ok(()));
    assert_eq!(chain.insert(&b2a, NOW), Ok(()));
    assert_eq!(chain.insert(&b2b, NOW), Ok(()));

    let forks = chain.forks_at(2);
    assert_eq!(forks.len(), 2);
    assert!(forks[0] == h2a);
    assert!(forks[1] == h2b);

    let (height, head) = chain.status();
    assert_eq!(height, 2);
    assert!(head == h2a || head == h2b);
    assert!(chain.main_at(2).unwrap() == head);

    // The fork enqueued one maintenance request for the height below; it
    // reprocesses without effect since height 1 is already canonical.
    assert_eq!(chain.pending_maintenance(), 1);
    chain.run_maintenance();
    assert_eq!(chain.pending_maintenance(), 0);
    assert!(chain.main_at(1).unwrap() == h1);
}

#[test]
fn deep_reorg_via_maintenance() {
    let mut chain = Chain::new();
    let b1 = mk_block(1, zero_hash(), 1000);
    let h1 = hash_of(&b1);
    let b2a = mk_block(2, h1.clone(), 2000);
    let b3a = mk_block(3, hash_of(&b2a), 3000);
    let b2b = mk_block(2, h1.clone(), 2500);
    let h2b = hash_of(&b2b);
    let b3b = mk_block(3, h2b.clone(), 3500);
    let h3b = hash_of(&b3b);

    assert_eq!(chain.insert(&b1, NOW), Ok(()));
    assert_eq!(chain.insert(&b2a, NOW), Ok(()));
    assert_eq!(chain.insert(&b3a, NOW), Ok(()));
    assert_eq!(chain.insert(&b2b, NOW), Ok(()));
    assert_eq!(chain.insert(&b3b, NOW), Ok(()));

    // Pin the canonical index to the first branch, whatever head the fork
    // pick chose, so the deep rewrite below starts from a known state.
    chain.process_reorg(3, hash_of(&b3a));
    assert!(chain.main_at(3).unwrap() == hash_of(&b3a));
    assert!(chain.main_at(2).unwrap() == hash_of(&b2a));

    // Feed the maintenance walk the competing tip directly.
    chain.process_reorg(3, h3b.clone());
    assert!(chain.main_at(3).unwrap() == h3b);
    assert!(chain.main_at(2).unwrap() == h2b);
    assert!(chain.main_at(1).unwrap() == h1);
}

#[test]
fn duplicate_insert() {
    let mut chain = Chain::new();
    let b1 = mk_block(1, zero_hash(), 1000);
    let h1 = hash_of(&b1);

    assert_eq!(chain.insert(&b1, NOW), Ok(()));
    assert_eq!(chain.insert(&b1, NOW), Err(Error::Duplicate));

    // The state after the second call equals the state after the first.
    let (height, head) = chain.status();
    assert_eq!(height, 1);
    assert!(head == h1);
    assert!(chain.main_at(1).unwrap() == h1);
    assert_eq!(chain.forks_at(1).len(), 1);
    assert_eq!(chain.parked_len(), 0);
    assert_eq!(chain.pending_maintenance(), 0);
}

#[test]
fn malformed_first_block_link() {
    let mut chain = Chain::new();
    // Height 1 with a non-zero parent link is malformed.
    let bad = mk_block(1, FixedBytes::from_vec(vec![9u8; 32]).unwrap(), 1000);
    assert_eq!(chain.insert(&bad, NOW), Err(Error::Malformed));
    // Height 0 is reserved and never admitted.
    let zero = mk_block(0, zero_hash(), 1000);
    assert_eq!(chain.insert(&zero, NOW), Err(Error::Malformed));
    assert_eq!(chain.parked_len(), 0);
}

#[test]
fn non_monotonic_timestamp_is_malformed() {
    let mut chain = Chain::new();
    let b1 = mk_block(1, zero_hash(), 1000);
    let h1 = hash_of(&b1);
    assert_eq!(chain.insert(&b1, NOW), Ok(()));
    let stale = mk_block(2, h1, 1000);
    assert_eq!(chain.insert(&stale, NOW), Err(Error::Malformed));
}

#[test]
fn bad_signature_is_malformed() {
    let mut chain = Chain::new();
    let good = mk_block(1, zero_hash(), 1000);
    let forged = SignedBlock {
        block: good.block,
        signer: good.signer,
        signature: FixedBytes::from_vec(vec![0u8; 65]).unwrap(),
    };
    assert_eq!(chain.insert(&forged, NOW), Err(Error::Malformed));
    assert_eq!(chain.parked_len(), 0);
}

#[test]
fn lookup_admitted_blocks() {
    let mut chain = Chain::new();
    let b1 = mk_block(1, zero_hash(), 1000);
    let h1 = hash_of(&b1);
    assert!(chain.get(&h1).is_none());
    assert_eq!(chain.insert(&b1, NOW), Ok(()));
    let got = chain.get(&h1).unwrap();
    assert_eq!(got.block.height, 1);
    assert!(chain.get(&hash_of(&mk_block(2, h1, 2000))).is_none());
}
