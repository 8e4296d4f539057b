//! The chain store and its ingestion state machine: an in-memory block
//! graph with a canonical height index, a fork table, a unified park for
//! blocks that are not yet admissible (by height, by timestamp, or by a
//! missing parent), a maintenance queue for fork switches, and the replay
//! of parked blocks.

use vstd::prelude::*;
use crate::codec;
use crate::codec::{block_digest, ts_digest};
use crate::crypto;
use crate::crypto::ecdsa_verifies;
use crate::error::Error;
use crate::hashes::H256;
use crate::model::{SignedBlock, SignedBlockV, signed_block_v_wf};
use crate::store::{HMap, UMap};

verus! {

/// The all-zero 32-byte digest, the parent link of a first block and the
/// initial head.
pub open spec fn zero_hash() -> Seq<u8> {
    Seq::new(32, |i: int| 0u8)
}

/// Why a block waits: the bucket it is parked in.
pub enum Slot {
    /// Its height exceeds the reachable next height; keyed by that height.
    Height(u64),
    /// Its proof timestamp is in the future; keyed by that timestamp.
    Time(u64),
    /// Its parent is not admitted; keyed by the parent hash.
    Parent(H256),
}

/// The ghost value of a slot.
pub ghost enum SlotV {
    Height(u64),
    Time(u64),
    Parent(Seq<u8>),
}

impl View for Slot {
    type V = SlotV;

    open spec fn view(&self) -> SlotV {
        match self {
            Slot::Height(h) => SlotV::Height(*h),
            Slot::Time(t) => SlotV::Time(*t),
            Slot::Parent(p) => SlotV::Parent(p@),
        }
    }
}

/// A parked block: the block, its cached identity hash, and the bucket it
/// waits in.
pub struct Parked {
    pub block: SignedBlock,
    pub hash: H256,
    pub slot: Slot,
}

/// The ghost value of a parked block.
#[verifier::ext_equal]
pub ghost struct ParkedV {
    pub block: SignedBlockV,
    pub hash: Seq<u8>,
    pub slot: SlotV,
}

impl View for Parked {
    type V = ParkedV;

    open spec fn view(&self) -> ParkedV {
        ParkedV { block: self.block@, hash: self.hash@, slot: self.slot@ }
    }
}

/// A list of sibling hashes at one height.
pub struct HashList {
    pub items: Vec<H256>,
}

impl View for HashList {
    type V = Seq<Seq<u8>>;

    open spec fn view(&self) -> Seq<Seq<u8>> {
        Seq::new(self.items@.len(), |i: int| self.items@[i]@)
    }
}

/// The ghost value of the chain store.
#[verifier::ext_equal]
pub ghost struct ChainV {
    /// Every admitted block, by its identity hash.
    pub blocks: Map<Seq<u8>, SignedBlockV>,
    /// The canonical chain: height to hash, defined exactly on
    /// `1..=current_height`.
    pub main: Map<u64, Seq<u8>>,
    /// All admitted siblings at each admitted height.
    pub forks: Map<u64, Seq<Seq<u8>>>,
    pub current_height: u64,
    pub current_hash: Seq<u8>,
    /// The parked blocks, each in exactly one bucket.
    pub parked: Seq<ParkedV>,
    /// Pending maintenance requests, in enqueue order.
    pub reorg_queue: Seq<(u64, Seq<u8>)>,
}

/// The chain store.
pub struct Chain {
    blocks: HMap<SignedBlock>,
    main: UMap<H256>,
    forks: UMap<HashList>,
    current_height: u64,
    current_hash: H256,
    parked: Vec<Parked>,
    reorg_queue: Vec<(u64, H256)>,
}

impl View for Chain {
    type V = ChainV;

    closed spec fn view(&self) -> ChainV {
        ChainV {
            blocks: self.blocks@,
            main: self.main@,
            forks: self.forks@,
            current_height: self.current_height,
            current_hash: self.current_hash@,
            parked: Seq::new(self.parked@.len(), |i: int| self.parked@[i]@),
            reorg_queue: Seq::new(
                self.reorg_queue@.len(),
                |i: int| (self.reorg_queue@[i].0, self.reorg_queue@[i].1@),
            ),
        }
    }
}

/// A candidate's identity hash: the digest of the inner block's canonical
/// encoding.
pub open spec fn candidate_hash(b: SignedBlockV) -> Seq<u8> {
    block_digest(b.block)
}

/// The chain store invariant.
pub open spec fn chain_wf(c: ChainV) -> bool {
    // The canonical index is defined exactly on the heights up to the tip.
    &&& forall|h: u64| #[trigger] c.main.contains_key(h) <==> 1 <= h <= c.current_height
    // Heads: the initial head is the zero digest; every hash is 32 bytes.
    &&& c.current_hash.len() == 32
    &&& (c.current_height == 0 ==> c.current_hash == zero_hash())
    // Every fork list is non-empty and points into the admitted blocks.
    &&& forall|h: u64| #[trigger] c.forks.contains_key(h) ==> c.forks[h].len() >= 1
    &&& forall|h: u64, i: int|
        c.forks.contains_key(h) && 0 <= i < c.forks[h].len() ==> c.blocks.contains_key(
            #[trigger] c.forks[h][i],
        )
    // Every admitted block is well formed, sits at height 1 with a zero
    // parent link or above height 1 with an admitted parent.
    &&& forall|k: Seq<u8>| #[trigger] c.blocks.contains_key(k) ==> {
        &&& k.len() == 32
        &&& signed_block_v_wf(c.blocks[k])
        &&& c.blocks[k].block.height >= 1
        &&& (c.blocks[k].block.height == 1 ==> c.blocks[k].block.pre_hash == zero_hash())
        &&& (c.blocks[k].block.height > 1 ==> c.blocks.contains_key(c.blocks[k].block.pre_hash))
    }
    // Parked entries: well formed, the cached hash is the block's identity,
    // hashes are pairwise distinct (a block sits in at most one bucket),
    // and a parent bucket is keyed by the block's own parent link.
    &&& forall|i: int| 0 <= i < c.parked.len() ==> signed_block_v_wf((#[trigger] c.parked[i]).block)
    &&& forall|i: int|
        0 <= i < c.parked.len() ==> (#[trigger] c.parked[i]).hash == candidate_hash(
            c.parked[i].block,
        ) && c.parked[i].hash.len() == 32
    &&& forall|i: int, j: int|
        0 <= i < j < c.parked.len() ==> (#[trigger] c.parked[i]).hash != (
        #[trigger] c.parked[j]).hash
    &&& forall|i: int|
        0 <= i < c.parked.len() ==> ((#[trigger] c.parked[i]).slot matches SlotV::Parent(p) ==> p
            == c.parked[i].block.block.pre_hash)
    // Queued maintenance requests sit strictly below the tip.
    &&& forall|i: int|
        0 <= i < c.reorg_queue.len() ==> (#[trigger] c.reorg_queue[i]).0 < c.current_height && (
        #[trigger] c.reorg_queue[i]).1.len() == 32
}

/// How many parked entries wait in the parent bucket, over all keys.
pub open spec fn parent_count(s: Seq<ParkedV>) -> nat
    decreases s.len(),
{
    if s.len() == 0 {
        0
    } else {
        parent_count(s.drop_last()) + (if s.last().slot is Parent {
            1nat
        } else {
            0nat
        })
    }
}

/// The parked entries that do not wait on parent `h`, in order.
pub open spec fn keep_rest(s: Seq<ParkedV>, h: Seq<u8>) -> Seq<ParkedV>
    decreases s.len(),
{
    if s.len() == 0 {
        Seq::empty()
    } else if s.last().slot matches SlotV::Parent(p) && p == h {
        keep_rest(s.drop_last(), h)
    } else {
        keep_rest(s.drop_last(), h).push(s.last())
    }
}

/// The parked entries that wait on parent `h`, in order.
pub open spec fn children_of(s: Seq<ParkedV>, h: Seq<u8>) -> Seq<ParkedV>
    decreases s.len(),
{
    if s.len() == 0 {
        Seq::empty()
    } else if s.last().slot matches SlotV::Parent(p) && p == h {
        children_of(s.drop_last(), h).push(s.last())
    } else {
        children_of(s.drop_last(), h)
    }
}

proof fn lemma_take_shape(s: Seq<ParkedV>, h: Seq<u8>)
    requires
        forall|a: int, c: int|
            0 <= a < c < s.len() ==> (#[trigger] s[a]).hash != (#[trigger] s[c]).hash,
    ensures
        forall|j: int|
            0 <= j < keep_rest(s, h).len() ==> exists|i: int|
                0 <= i < s.len() && s[i] == #[trigger] keep_rest(s, h)[j],
        forall|j: int|
            0 <= j < keep_rest(s, h).len() ==> !((#[trigger] keep_rest(s, h)[j]).slot
                matches SlotV::Parent(p) && p == h),
        forall|j: int|
            0 <= j < children_of(s, h).len() ==> (exists|i: int|
                0 <= i < s.len() && s[i] == #[trigger] children_of(s, h)[j]) && children_of(
                s,
                h,
            )[j].slot == SlotV::Parent(h),
        forall|a: int, c: int|
            0 <= a < c < keep_rest(s, h).len() ==> (#[trigger] keep_rest(s, h)[a]).hash != (
            #[trigger] keep_rest(s, h)[c]).hash,
        forall|a: int, c: int|
            0 <= a < c < children_of(s, h).len() ==> (#[trigger] children_of(s, h)[a]).hash != (
            #[trigger] children_of(s, h)[c]).hash,
        forall|a: int, c: int|
            0 <= a < children_of(s, h).len() && 0 <= c < keep_rest(s, h).len() ==> (
            #[trigger] children_of(s, h)[a]).hash != (#[trigger] keep_rest(s, h)[c]).hash,
        parent_count(keep_rest(s, h)) + children_of(s, h).len() == parent_count(s),
    decreases s.len(),
{
    if s.len() > 0 {
        let sd = s.drop_last();
        assert(forall|i: int| 0 <= i < sd.len() ==> (#[trigger] sd[i]) == s[i]);
        lemma_take_shape(sd, h);
        let kr = keep_rest(s, h);
        let krd = keep_rest(sd, h);
        let ch = children_of(s, h);
        let chd = children_of(sd, h);
        assert forall|j: int| 0 <= j < krd.len() implies exists|i: int|
            0 <= i < s.len() && s[i] == #[trigger] krd[j] by {
            let w = choose|w: int| 0 <= w < sd.len() && sd[w] == krd[j];
            assert(s[w] == krd[j]);
        }
        assert forall|j: int| 0 <= j < chd.len() implies exists|i: int|
            0 <= i < s.len() && s[i] == #[trigger] chd[j] by {
            let w = choose|w: int| 0 <= w < sd.len() && sd[w] == chd[j];
            assert(s[w] == chd[j]);
        }
        assert forall|j: int|
            0 <= j < krd.len() implies (#[trigger] krd[j]).hash != s.last().hash by {
            let w = choose|w: int| 0 <= w < sd.len() && sd[w] == krd[j];
            assert(s[w].hash != s[s.len() - 1].hash);
        }
        assert forall|j: int|
            0 <= j < chd.len() implies (#[trigger] chd[j]).hash != s.last().hash by {
            let w = choose|w: int| 0 <= w < sd.len() && sd[w] == chd[j];
            assert(s[w].hash != s[s.len() - 1].hash);
        }
        if s.last().slot matches SlotV::Parent(p) && p == h {
            assert(kr == krd);
            assert(ch == chd.push(s.last()));
            assert(parent_count(s) == parent_count(sd) + 1);
        } else {
            assert(kr == krd.push(s.last()));
            assert(ch == chd);
            assert(parent_count(kr) == parent_count(krd) + (if s.last().slot is Parent {
                1nat
            } else {
                0nat
            })) by {
                assert(kr.drop_last() =~= krd);
                assert(kr.last() == s.last());
            }
        }
    }
}

/// Whether a candidate claims the first height with a zero parent link.
pub open spec fn is_first_v(b: SignedBlockV) -> bool {
    b.block.height == 1 && b.block.pre_hash == zero_hash()
}

/// Whether the first-block check rejects the candidate: the reserved
/// height 0, or height 1 with a non-zero parent link.
pub open spec fn first_malformed(b: SignedBlockV) -> bool {
    b.block.height == 0 || (b.block.height == 1 && b.block.pre_hash != zero_hash())
}

/// Whether both signatures hold: the block signature over the block's
/// identity hash, and the proof signature over the timestamp digest.
pub open spec fn sigs_ok(b: SignedBlockV) -> bool {
    &&& ecdsa_verifies(b.signer, b.signature, candidate_hash(b))
    &&& ecdsa_verifies(b.block.proof.key, b.block.proof.signature, ts_digest(b.block.proof.timestamp))
}

/// What one ingestion attempt returns, checked in this exact order:
/// duplicate, future height, future timestamp, first-block shape, missing
/// parent, non-monotonic timestamp, signatures.
pub open spec fn accept_outcome(c: ChainV, b: SignedBlockV, now: u64) -> Result<(), Error> {
    if c.blocks.contains_key(candidate_hash(b)) {
        Err(Error::Duplicate)
    } else if b.block.height > c.current_height + 1 {
        Err(Error::FutureHeight)
    } else if b.block.proof.timestamp > now {
        Err(Error::FutureTime)
    } else if first_malformed(b) {
        Err(Error::Malformed)
    } else if !is_first_v(b) && !c.blocks.contains_key(b.block.pre_hash) {
        Err(Error::MissParent)
    } else if !is_first_v(b) && c.blocks[b.block.pre_hash].block.proof.timestamp
        >= b.block.proof.timestamp {
        Err(Error::Malformed)
    } else if !sigs_ok(b) {
        Err(Error::Malformed)
    } else {
        Ok(())
    }
}

/// The parked entries with the entry of identity `h` (if any) taken out.
pub open spec fn remove_parked(s: Seq<ParkedV>, h: Seq<u8>) -> Seq<ParkedV>
    decreases s.len(),
{
    if s.len() == 0 {
        Seq::empty()
    } else if s.last().hash == h {
        remove_parked(s.drop_last(), h)
    } else {
        remove_parked(s.drop_last(), h).push(s.last())
    }
}

proof fn lemma_remove_parked_at(s: Seq<ParkedV>, h: Seq<u8>, i: int)
    requires
        forall|a: int, b: int| 0 <= a < b < s.len() ==> (#[trigger] s[a]).hash != (#[trigger] s[b]).hash,
        0 <= i < s.len(),
        s[i].hash == h,
    ensures
        remove_parked(s, h) == s.remove(i),
    decreases s.len(),
{
    if i == s.len() - 1 {
        assert(s.remove(i) =~= s.drop_last());
        assert(forall|a: int| 0 <= a < s.len() - 1 ==> (#[trigger] s.drop_last()[a]) == s[a]);
        lemma_remove_parked_absent(s.drop_last(), h);
    } else {
        assert(forall|a: int| 0 <= a < s.len() - 1 ==> (#[trigger] s.drop_last()[a]) == s[a]);
        lemma_remove_parked_at(s.drop_last(), h, i);
        assert(s.last().hash != h);
        assert(remove_parked(s, h) == s.drop_last().remove(i).push(s.last()));
        assert(s.drop_last().remove(i).push(s.last()) =~= s.remove(i));
    }
}

proof fn lemma_remove_parked_absent(s: Seq<ParkedV>, h: Seq<u8>)
    requires
        forall|a: int| 0 <= a < s.len() ==> (#[trigger] s[a]).hash != h,
    ensures
        remove_parked(s, h) == s,
    decreases s.len(),
{
    if s.len() > 0 {
        assert(forall|a: int| 0 <= a < s.len() - 1 ==> (#[trigger] s.drop_last()[a]) == s[a]);
        lemma_remove_parked_absent(s.drop_last(), h);
        assert(remove_parked(s, h) =~= s);
    }
}

proof fn lemma_remove_parked_sub(s: Seq<ParkedV>, h: Seq<u8>)
    ensures
        forall|j: int|
            0 <= j < remove_parked(s, h).len() ==> exists|i: int|
                0 <= i < s.len() && s[i] == #[trigger] remove_parked(s, h)[j],
    decreases s.len(),
{
    if s.len() > 0 {
        let sd = s.drop_last();
        assert(forall|a: int| 0 <= a < sd.len() ==> (#[trigger] sd[a]) == s[a]);
        lemma_remove_parked_sub(sd, h);
        let rd = remove_parked(sd, h);
        assert forall|j: int| 0 <= j < rd.len() implies exists|i: int|
            0 <= i < s.len() && s[i] == #[trigger] rd[j] by {
            let w = choose|w: int| 0 <= w < sd.len() && sd[w] == rd[j];
            assert(s[w] == rd[j]);
        }
        if s.last().hash != h {
            assert(remove_parked(s, h) == rd.push(s.last()));
            assert(s[s.len() - 1] == remove_parked(s, h)[rd.len() as int]);
        }
    }
}

/// Whether a parked entry either waited already before some call (it is
/// one of `olds`) or is a fresh park that the call's clock and starting tip
/// justify: a timestamp bucket key beyond `now`, or a height bucket key
/// beyond the height that was reachable from tip `cur`.
pub open spec fn parked_from(e: ParkedV, olds: Seq<ParkedV>, now: u64, cur: u64) -> bool {
    &&& (e.slot matches SlotV::Time(t) ==> t > now || exists|i: int|
        0 <= i < olds.len() && #[trigger] olds[i] == e)
    &&& (e.slot matches SlotV::Height(k) ==> k > cur + 1 || exists|i: int|
        0 <= i < olds.len() && #[trigger] olds[i] == e)
}

/// The chain after a candidate was parked: only the park changes, and in
/// it the candidate replaces any entry with the same identity.
pub open spec fn park_post(pre: ChainV, b: SignedBlockV, slot: SlotV) -> ChainV {
    ChainV {
        parked: remove_parked(pre.parked, candidate_hash(b)).push(
            ParkedV { block: b, hash: candidate_hash(b), slot },
        ),
        ..pre
    }
}

/// The chain after a candidate was admitted: the block joins the graph and
/// its height's fork list, its parked entry (if any) is released, and if
/// the height reaches the tip the head moves to one of the siblings (the
/// single one where there is no fork), the canonical index records that
/// pick, and a fork enqueues a maintenance request for the height below.
/// The sibling list of the candidate's height after admission.
pub open spec fn forks_after(pre: ChainV, b: SignedBlockV) -> Seq<Seq<u8>> {
    (if pre.forks.contains_key(b.block.height) {
        pre.forks[b.block.height]
    } else {
        Seq::empty()
    }).push(candidate_hash(b))
}

/// The admission relation with the head pick `p` named: where the height
/// reaches the tip, the head and the canonical index move to sibling `p`
/// (the only one where there is no fork), and a fork enqueues a
/// maintenance request for the height below, keyed by the picked sibling's
/// parent.
pub open spec fn install_pick(pre: ChainV, post: ChainV, b: SignedBlockV, p: int) -> bool {
    let h = candidate_hash(b);
    let newforks = forks_after(pre, b);
    &&& post.blocks == pre.blocks.insert(h, b)
    &&& post.forks == pre.forks.insert(b.block.height, newforks)
    &&& post.parked == remove_parked(pre.parked, h)
    &&& if b.block.height >= pre.current_height {
        &&& post.current_height == b.block.height
        &&& 0 <= p < newforks.len()
        &&& post.current_hash == newforks[p]
        &&& post.main == pre.main.insert(b.block.height, newforks[p])
        &&& (newforks.len() == 1 ==> p == newforks.len() - 1)
        &&& post.reorg_queue == (if newforks.len() > 1 {
            pre.reorg_queue.push(
                ((b.block.height - 1) as u64, post.blocks[newforks[p]].block.pre_hash),
            )
        } else {
            pre.reorg_queue
        })
    } else {
        &&& post.current_height == pre.current_height
        &&& post.current_hash == pre.current_hash
        &&& post.main == pre.main
        &&& post.reorg_queue == pre.reorg_queue
    }
}

/// The admission relation: the block joins the graph and its fork list,
/// its parked entry (if any) is released, and the head moves to some pick
/// among the new siblings where the height reaches the tip.
pub open spec fn install_post(pre: ChainV, post: ChainV, b: SignedBlockV) -> bool {
    exists|p: int| #[trigger] install_pick(pre, post, b, p)
}

/// How one ingestion attempt relates the chain before and after the call,
/// for every outcome.
pub open spec fn accept_post(pre: ChainV, post: ChainV, b: SignedBlockV, now: u64) -> bool {
    match accept_outcome(pre, b, now) {
        Ok(()) => install_post(pre, post, b),
        Err(Error::Duplicate) => post == pre,
        Err(Error::Malformed) => post == pre,
        Err(Error::FutureHeight) => post == park_post(pre, b, SlotV::Height(b.block.height)),
        Err(Error::FutureTime) => post == park_post(pre, b, SlotV::Time(b.block.proof.timestamp)),
        Err(Error::MissParent) => post == park_post(pre, b, SlotV::Parent(b.block.pre_hash)),
        Err(_) => false,
    }
}

impl Chain {
    /// The store invariant, on the ghost view, together with the backing
    /// stores' own shape.
    pub open spec fn wf(&self) -> bool {
        &&& chain_wf(self@)
        &&& self.stores_wf()
    }

    /// The backing maps keep distinct keys (an implementation detail).
    pub closed spec fn stores_wf(&self) -> bool {
        &&& self.blocks.wf()
        &&& self.main.wf()
        &&& self.forks.wf()
    }

    /// An empty chain: height 0, the all-zero head, nothing admitted,
    /// nothing parked.
    pub fn new() -> (r: Chain)
        ensures
            r@.blocks == Map::<Seq<u8>, SignedBlockV>::empty(),
            r@.main == Map::<u64, Seq<u8>>::empty(),
            r@.forks == Map::<u64, Seq<Seq<u8>>>::empty(),
            r@.current_height == 0u64,
            r@.current_hash == zero_hash(),
            r@.parked == Seq::<ParkedV>::empty(),
            r@.reorg_queue == Seq::<(u64, Seq<u8>)>::empty(),
            r.wf(),
    {
        let r = Chain {
            blocks: HMap::new(),
            main: UMap::new(),
            forks: UMap::new(),
            current_height: 0,
            current_hash: H256::zero(),
            parked: Vec::new(),
            reorg_queue: Vec::new(),
        };
        proof {
            assert(r@.parked =~= Seq::<ParkedV>::empty());
            assert(r@.reorg_queue =~= Seq::<(u64, Seq<u8>)>::empty());
        }
        r
    }

    /// The tip: the canonical height and head hash.
    pub fn status(&self) -> (r: (u64, H256))
        ensures
            r.0 == self@.current_height,
            r.1@ == self@.current_hash,
    {
        (self.current_height, self.current_hash.clone())
    }

    /// Looks an admitted block up by its hash.
    pub fn get(&self, hash: &H256) -> (r: Option<SignedBlock>)
        requires
            self.wf(),
        ensures
            r matches Some(b) ==> self@.blocks.contains_key(hash@) && b@ == self@.blocks[hash@],
            r is None <==> !self@.blocks.contains_key(hash@),
    {
        match self.blocks.get(hash) {
            Some(b) => Some(b.clone()),
            None => None,
        }
    }

    /// The sibling hashes admitted at a height, or an empty list.
    pub fn forks_at(&self, height: u64) -> (r: Vec<H256>)
        requires
            self.wf(),
        ensures
            self@.forks.contains_key(height) ==> r@.len() == self@.forks[height].len() && (forall|
                i: int,
            | 0 <= i < r@.len() ==> (#[trigger] r@[i])@ == self@.forks[height][i]),
            !self@.forks.contains_key(height) ==> r@.len() == 0,
    {
        match self.forks.get(height) {
            Some(list) => {
                let mut out: Vec<H256> = Vec::new();
                let mut i: usize = 0;
                while i < list.items.len()
                    invariant
                        i <= list.items@.len(),
                        out@.len() == i,
                        forall|j: int|
                            0 <= j < i ==> (#[trigger] out@[j])@ == list.items@[j]@,
                    decreases list.items@.len() - i,
                {
                    out.push(list.items[i].clone());
                    i += 1;
                }
                out
            },
            None => Vec::new(),
        }
    }

    /// The canonical hash at a height, if the height is on the main chain.
    pub fn main_at(&self, height: u64) -> (r: Option<H256>)
        requires
            self.wf(),
        ensures
            r matches Some(h) ==> self@.main.contains_key(height) && h@ == self@.main[height],
            r is None <==> !self@.main.contains_key(height),
    {
        match self.main.get(height) {
            Some(h) => Some(h.clone()),
            None => None,
        }
    }

    /// How many blocks are parked, over all three buckets.
    pub fn parked_len(&self) -> (r: usize)
        ensures
            r == self@.parked.len(),
    {
        self.parked.len()
    }

    /// Whether a block with the given identity hash is parked.
    pub fn is_parked(&self, hash: &H256) -> (r: bool)
        ensures
            r == exists|i: int|
                0 <= i < self@.parked.len() && (#[trigger] self@.parked[i]).hash == hash@,
    {
        let mut i: usize = 0;
        while i < self.parked.len()
            invariant
                i <= self.parked@.len(),
                forall|j: int| 0 <= j < i ==> (#[trigger] self@.parked[j]).hash != hash@,
            decreases self.parked@.len() - i,
        {
            if self.parked[i].hash == *hash {
                proof {
                    assert(self@.parked[i as int].hash == hash@);
                }
                return true;
            }
            i += 1;
        }
        false
    }

    /// How many maintenance requests wait in the queue.
    pub fn pending_maintenance(&self) -> (r: usize)
        ensures
            r == self@.reorg_queue.len(),
    {
        self.reorg_queue.len()
    }

    /// Takes the entry with this identity hash (if any) out of the park.
    fn release(&mut self, hash: &H256)
        requires
            forall|a: int, b: int|
                0 <= a < b < old(self)@.parked.len() ==> (#[trigger] old(self)@.parked[a]).hash
                    != (#[trigger] old(self)@.parked[b]).hash,
        ensures
            final(self)@.parked == remove_parked(old(self)@.parked, hash@),
            forall|j: int|
                0 <= j < final(self)@.parked.len() ==> exists|i: int|
                    0 <= i < old(self)@.parked.len() && old(self)@.parked[i]
                        == #[trigger] final(self)@.parked[j],
            forall|j: int|
                0 <= j < final(self)@.parked.len() ==> (#[trigger] final(self)@.parked[j]).hash
                    != hash@,
            forall|a: int, b: int|
                0 <= a < b < final(self)@.parked.len() ==> (#[trigger] final(self)@.parked[a]).hash
                    != (#[trigger] final(self)@.parked[b]).hash,
            final(self)@.blocks == old(self)@.blocks,
            final(self)@.main == old(self)@.main,
            final(self)@.forks == old(self)@.forks,
            final(self)@.current_height == old(self)@.current_height,
            final(self)@.current_hash == old(self)@.current_hash,
            final(self)@.reorg_queue == old(self)@.reorg_queue,
            final(self).stores_wf() == old(self).stores_wf(),
    {
        let ghost s0 = self@.parked;
        proof {
            assert(forall|a: int, c: int|
                0 <= a < c < s0.len() ==> (#[trigger] s0[a]).hash != (#[trigger] s0[c]).hash);
        }
        let mut i: usize = 0;
        while i < self.parked.len()
            invariant
                i <= self.parked@.len(),
                *self == *old(self),
                s0 == self@.parked,
                forall|a: int, c: int|
                    0 <= a < c < s0.len() ==> (#[trigger] s0[a]).hash != (#[trigger] s0[c]).hash,
                forall|j: int| 0 <= j < i ==> (#[trigger] self@.parked[j]).hash != hash@,
            decreases self.parked@.len() - i,
        {
            if self.parked[i].hash == *hash {
                proof {
                    assert(self@.parked[i as int].hash == hash@);
                    lemma_remove_parked_at(s0, hash@, i as int);
                }
                self.parked.remove(i);
                proof {
                    assert(self@.parked =~= s0.remove(i as int));
                    assert(forall|j: int|
                        0 <= j < self@.parked.len() ==> (#[trigger] self@.parked[j]) == (if j < i {
                            s0[j]
                        } else {
                            s0[j + 1]
                        }));
                    assert forall|j: int|
                        0 <= j < self@.parked.len() implies (#[trigger] self@.parked[j]).hash
                        != hash@ by {
                        if j < i {
                            assert(self@.parked[j] == s0[j]);
                            assert(s0[j].hash != s0[i as int].hash);
                        } else {
                            assert(self@.parked[j] == s0[j + 1]);
                            assert(s0[i as int].hash != s0[j + 1].hash);
                        }
                    }
                }
                return ;
            }
            i += 1;
        }
        proof {
            lemma_remove_parked_absent(s0, hash@);
        }
    }

    /// Parks a candidate in the bucket named by `slot`, releasing any
    /// previous entry with the same identity first.
    fn park(&mut self, b: &SignedBlock, hash: H256, slot: Slot)
        requires
            forall|a: int, c: int|
                0 <= a < c < old(self)@.parked.len() ==> (#[trigger] old(self)@.parked[a]).hash
                    != (#[trigger] old(self)@.parked[c]).hash,
            hash@ == candidate_hash(b@),
        ensures
            final(self)@ == (ChainV {
                parked: remove_parked(old(self)@.parked, hash@).push(
                    ParkedV { block: b@, hash: hash@, slot: slot@ },
                ),
                ..old(self)@
            }),
            forall|j: int|
                0 <= j < final(self)@.parked.len() - 1 ==> exists|i: int|
                    0 <= i < old(self)@.parked.len() && old(self)@.parked[i]
                        == #[trigger] final(self)@.parked[j],
            forall|a: int, c: int|
                0 <= a < c < final(self)@.parked.len() ==> (#[trigger] final(self)@.parked[a]).hash
                    != (#[trigger] final(self)@.parked[c]).hash,
            final(self).stores_wf() == old(self).stores_wf(),
    {
        self.release(&hash);
        let ghost mid = self@.parked;
        self.parked.push(Parked { block: b.clone(), hash, slot });
        proof {
            assert(self@.parked =~= mid.push(ParkedV { block: b@, hash: hash@, slot: slot@ }));
            assert(forall|j: int| 0 <= j < mid.len() ==> (#[trigger] self@.parked[j]) == mid[j]);
            assert(self@ =~~= (ChainV {
                parked: remove_parked(old(self)@.parked, hash@).push(
                    ParkedV { block: b@, hash: hash@, slot: slot@ },
                ),
                ..old(self)@
            }));
        }
    }

    /// One ingestion attempt: the validation and placement steps, without
    /// orphan adoption. Exactly one of the outcomes of `accept_outcome`
    /// happens, and the state moves as `accept_post` says.
    pub fn try_accept(&mut self, b: &SignedBlock, now: u64) -> (r: Result<(), Error>)
        requires
            old(self).wf(),
            b.wf(),
        ensures
            final(self).wf(),
            r == accept_outcome(old(self)@, b@, now),
            accept_post(old(self)@, final(self)@, b@, now),
    {
        let ghost pre = self@;
        let h = codec::block_hash(&b.block);
        proof {
            assert(h@ == candidate_hash(b@));
        }
        if self.blocks.contains(&h) {
            return Err(Error::Duplicate);
        }
        if b.block.height > self.current_height && b.block.height - self.current_height > 1 {
            self.park(b, h, Slot::Height(b.block.height));
            proof {
                lemma_park_keeps_wf(pre, self@, b@, SlotV::Height(b@.block.height));
            }
            return Err(Error::FutureHeight);
        }
        if b.block.proof.timestamp > now {
            self.park(b, h, Slot::Time(b.block.proof.timestamp));
            proof {
                lemma_park_keeps_wf(pre, self@, b@, SlotV::Time(b@.block.proof.timestamp));
            }
            return Err(Error::FutureTime);
        }
        let first = match b.block.is_first() {
            Ok(f) => f,
            Err(e) => {
                proof {
                    assert(b@.block.pre_hash.len() == 32);
                    assert(first_malformed(b@));
                }
                return Err(e);
            },
        };
        proof {
            assert(b@.block.pre_hash.len() == 32);
            assert(first == is_first_v(b@));
            assert(!first_malformed(b@));
        }
        if !first && !self.blocks.contains(&b.block.pre_hash) {
            let pre_hash = b.block.pre_hash.clone();
            self.park(b, h, Slot::Parent(pre_hash));
            proof {
                lemma_park_keeps_wf(pre, self@, b@, SlotV::Parent(b@.block.pre_hash));
            }
            return Err(Error::MissParent);
        }
        if !first {
            let parent = match self.blocks.get(&b.block.pre_hash) {
                Some(p) => p,
                None => vstd::pervasive::unreached(),
            };
            if parent.block.proof.timestamp >= b.block.proof.timestamp {
                return Err(Error::Malformed);
            }
        }
        let ok_block = crypto::verify(&b.signer, &b.signature, &h);
        let td = codec::timestamp_digest(b.block.proof.timestamp);
        let ok_proof = crypto::verify(&b.block.proof.key, &b.block.proof.signature, &td);
        if !ok_block || !ok_proof {
            return Err(Error::Malformed);
        }
        proof {
            assert(accept_outcome(pre, b@, now) == Result::<(), Error>::Ok(()));
        }
        self.install(b, h)
    }

    /// The admission steps: the block joins the graph and its height's
    /// fork list; if the height reaches the tip, the head moves to a pick
    /// among the siblings and the canonical index records the pick; a fork
    /// enqueues a maintenance request for the height below.
    fn install(&mut self, b: &SignedBlock, h: H256) -> (r: Result<(), Error>)
        requires
            old(self).wf(),
            b.wf(),
            h@ == candidate_hash(b@),
            h.wf(),
            !old(self)@.blocks.contains_key(h@),
            b@.block.height >= 1,
            b@.block.height <= old(self)@.current_height + 1,
            b@.block.height == 1 ==> b@.block.pre_hash == zero_hash(),
            b@.block.height > 1 ==> old(self)@.blocks.contains_key(b@.block.pre_hash),
        ensures
            r == Result::<(), Error>::Ok(()),
            final(self).wf(),
            install_post(old(self)@, final(self)@, b@),
    {
        let ghost pre = self@;
        let height = b.block.height;
        self.release(&h);
        let ghost parked1 = self@.parked;
        self.blocks.insert(h.clone(), b.clone());
        let mut list: Vec<H256> = match self.forks.get(height) {
            Some(l) => clone_hash_vec(&l.items),
            None => Vec::new(),
        };
        let ghost oldlist = (if pre.forks.contains_key(height as u64) {
            pre.forks[height as u64]
        } else {
            Seq::<Seq<u8>>::empty()
        });
        proof {
            assert(Seq::new(list@.len(), |i: int| list@[i]@) =~= oldlist);
        }
        list.push(h.clone());
        let ghost newforks = oldlist.push(h@);
        proof {
            assert(Seq::new(list@.len(), |i: int| list@[i]@) =~= newforks);
        }
        let n = list.len();
        let pick_idx = if n > 1 {
            crypto::random_index(n)
        } else {
            0
        };
        let picked = list[pick_idx].clone();
        proof {
            assert(picked@ == newforks[pick_idx as int]);
        }
        self.forks.insert(height, HashList { items: list });
        proof {
            assert(n == newforks.len());
            assert(self.forks@ =~= pre.forks.insert(height as u64, newforks));
            assert(self@.parked =~= parked1);
            assert(self@.reorg_queue =~= pre.reorg_queue);
        }
        if height >= self.current_height {
            self.current_height = height;
            self.current_hash = picked.clone();
            self.main.insert(height, picked.clone());
            proof {
                assert(self.main@ =~= pre.main.insert(height as u64, newforks[pick_idx as int]));
            }
            if n > 1 {
                let parent_of_pick = match self.blocks.get(&picked) {
                    Some(x) => x.block.pre_hash.clone(),
                    None => vstd::pervasive::unreached(),
                };
                let ghost queue0 = self@.reorg_queue;
                self.reorg_queue.push((height - 1, parent_of_pick));
                proof {
                    assert(self@.reorg_queue =~= queue0.push(
                        (
                            (height - 1) as u64,
                            self@.blocks[newforks[pick_idx as int]].block.pre_hash,
                        ),
                    ));
                }
            }
            proof {
                assert(self@.parked =~= parked1);
                assert(newforks == forks_after(pre, b@));
                assert(install_pick(pre, self@, b@, pick_idx as int));
            }
        } else {
            proof {
                assert(self@.main =~= pre.main);
                assert(newforks == forks_after(pre, b@));
                assert(install_pick(pre, self@, b@, pick_idx as int));
            }
        }
        proof {
            assert(install_post(pre, self@, b@));
            lemma_install_wf(pre, self@, b@);
        }
        Ok(())
    }

    /// Removes every block waiting on parent `h` from the park and hands
    /// the blocks back.
    fn take_children(&mut self, h: &H256) -> (r: Vec<SignedBlock>)
        requires
            old(self).wf(),
        ensures
            final(self).wf(),
            final(self)@ == (ChainV { parked: keep_rest(old(self)@.parked, h@), ..old(self)@ }),
            final(self).stores_wf() == old(self).stores_wf(),
            parent_count(final(self)@.parked) + r@.len() == parent_count(old(self)@.parked),
            forall|i: int|
                0 <= i < r@.len() ==> signed_block_v_wf((#[trigger] r@[i])@) && r@[i]@.block.pre_hash
                    == h@,
            forall|i: int, j: int|
                0 <= i < r@.len() && 0 <= j < final(self)@.parked.len() ==> candidate_hash(
                    (#[trigger] r@[i])@,
                ) != (#[trigger] final(self)@.parked[j]).hash,
            forall|i: int, j: int|
                0 <= i < j < r@.len() ==> candidate_hash((#[trigger] r@[i])@) != candidate_hash(
                    (#[trigger] r@[j])@,
                ),
            forall|i: int|
                0 <= i < r@.len() ==> exists|w: int|
                    0 <= w < old(self)@.parked.len() && candidate_hash((#[trigger] r@[i])@) == old(
                        self,
                    )@.parked[w].hash,
            forall|j: int|
                0 <= j < final(self)@.parked.len() ==> exists|i: int|
                    0 <= i < old(self)@.parked.len() && old(self)@.parked[i]
                        == #[trigger] final(self)@.parked[j],
            forall|j: int|
                0 <= j < final(self)@.parked.len() ==> !((#[trigger] final(self)@.parked[j]).slot
                    matches SlotV::Parent(p) && p == h@),
    {
        let ghost s0 = self@.parked;
        proof {
            lemma_take_shape(s0, h@);
        }
        let mut out: Vec<SignedBlock> = Vec::new();
        let mut kept: Vec<Parked> = Vec::new();
        let mut i: usize = 0;
        while i < self.parked.len()
            invariant
                i <= self.parked@.len(),
                s0 == self@.parked,
                *self == *old(self),
                Seq::new(kept@.len(), |j: int| kept@[j]@) == keep_rest(
                    s0.subrange(0, i as int),
                    h@,
                ),
                out@.len() == children_of(s0.subrange(0, i as int), h@).len(),
                forall|j: int|
                    0 <= j < out@.len() ==> (#[trigger] out@[j])@ == children_of(
                        s0.subrange(0, i as int),
                        h@,
                    )[j].block,
            decreases self.parked@.len() - i,
        {
            let ghost prefix = s0.subrange(0, i as int);
            proof {
                assert(s0.subrange(0, i + 1).drop_last() =~= prefix);
                assert(s0.subrange(0, i + 1).last() == s0[i as int]);
                assert(self@.parked[i as int] == s0[i as int]);
            }
            let is_child = match &self.parked[i].slot {
                Slot::Parent(p) => *p == *h,
                _ => false,
            };
            if is_child {
                proof {
                    assert(s0[i as int].slot matches SlotV::Parent(p) && p == h@);
                }
                out.push(self.parked[i].block.clone());
                proof {
                    assert(children_of(s0.subrange(0, i + 1), h@) =~= children_of(
                        prefix,
                        h@,
                    ).push(s0[i as int]));
                    assert(keep_rest(s0.subrange(0, i + 1), h@) =~= keep_rest(prefix, h@));
                    assert(Seq::new(kept@.len(), |j: int| kept@[j]@) =~= keep_rest(
                        s0.subrange(0, i + 1),
                        h@,
                    ));
                    assert(out@.last()@ == children_of(s0.subrange(0, i + 1), h@).last().block);
                }
            } else {
                proof {
                    assert(!(s0[i as int].slot matches SlotV::Parent(p) && p == h@));
                }
                kept.push(clone_parked(&self.parked[i]));
                proof {
                    assert(children_of(s0.subrange(0, i + 1), h@) =~= children_of(prefix, h@));
                    assert(keep_rest(s0.subrange(0, i + 1), h@) =~= keep_rest(prefix, h@).push(
                        s0[i as int],
                    ));
                    assert(Seq::new(kept@.len(), |j: int| kept@[j]@) =~= keep_rest(
                        s0.subrange(0, i + 1),
                        h@,
                    ));
                }
            }
            i += 1;
        }
        proof {
            assert(s0.subrange(0, s0.len() as int) =~= s0);
        }
        self.parked = kept;
        proof {
            assert(self@.parked =~= keep_rest(s0, h@));
            assert(self@ =~~= (ChainV { parked: keep_rest(s0, h@), ..old(self)@ }));
            let ch = children_of(s0, h@);
            assert forall|a: int| 0 <= a < out@.len() implies signed_block_v_wf(
                (#[trigger] out@[a])@,
            ) && out@[a]@.block.pre_hash == h@ && candidate_hash(out@[a]@) == ch[a].hash by {
                assert(out@[a]@ == ch[a].block);
                let w = choose|w: int| 0 <= w < s0.len() && s0[w] == ch[a];
                assert(s0[w] == ch[a]);
                assert(ch[a].slot == SlotV::Parent(h@));
            }
            assert forall|a: int, c: int|
                0 <= a < out@.len() && 0 <= c < self@.parked.len() implies candidate_hash(
                (#[trigger] out@[a])@,
            ) != (#[trigger] self@.parked[c]).hash by {
                assert(candidate_hash(out@[a]@) == ch[a].hash);
                assert(self@.parked[c] == keep_rest(s0, h@)[c]);
            }
            assert forall|a: int, c: int| 0 <= a < c < out@.len() implies candidate_hash(
                (#[trigger] out@[a])@,
            ) != candidate_hash((#[trigger] out@[c])@) by {
                assert(candidate_hash(out@[a]@) == ch[a].hash);
                assert(candidate_hash(out@[c]@) == ch[c].hash);
            }
            assert forall|a: int| 0 <= a < out@.len() implies exists|w: int|
                0 <= w < s0.len() && candidate_hash((#[trigger] out@[a])@) == s0[w].hash by {
                assert(candidate_hash(out@[a]@) == ch[a].hash);
                let w = choose|w: int| 0 <= w < s0.len() && s0[w] == ch[a];
                assert(candidate_hash(out@[a]@) == s0[w].hash);
            }
            assert forall|j: int| 0 <= j < self@.parked.len() implies signed_block_v_wf(
                (#[trigger] self@.parked[j]).block,
            ) && self@.parked[j].hash == candidate_hash(self@.parked[j].block)
                && self@.parked[j].hash.len() == 32 && (self@.parked[j].slot matches SlotV::Parent(
                p,
            ) ==> p == self@.parked[j].block.block.pre_hash) by {
                let w = choose|w: int| 0 <= w < s0.len() && s0[w] == #[trigger] keep_rest(s0, h@)[j];
                assert(s0[w] == self@.parked[j]);
            }
        }
        out
    }

    /// Ingests a candidate block: one validation-and-placement attempt,
    /// followed by orphan adoption — every parked block that waited on a
    /// block admitted along the way is re-ingested, with failures absorbed
    /// (such a block is parked again or dropped as the attempt says).
    /// The returned outcome is that of the candidate's own attempt.
    #[verifier::rlimit(100)]
    pub fn insert(&mut self, b: &SignedBlock, now: u64) -> (r: Result<(), Error>)
        requires
            old(self).wf(),
            b.wf(),
        ensures
            final(self).wf(),
            r == accept_outcome(old(self)@, b@, now),
            r == Result::<(), Error>::Err(Error::Duplicate) ==> final(self)@ == old(self)@,
            r is Err ==> accept_post(old(self)@, final(self)@, b@, now),
            forall|k: Seq<u8>|
                old(self)@.blocks.contains_key(k) ==> final(self)@.blocks.contains_key(k)
                    && final(self)@.blocks[k] == old(self)@.blocks[k],
            final(self)@.current_height >= old(self)@.current_height,
            r is Ok ==> final(self)@.blocks.contains_key(candidate_hash(b@))
                && final(self)@.blocks[candidate_hash(b@)] == b@,
            r is Ok ==> forall|j: int|
                0 <= j < final(self)@.parked.len() ==> !((#[trigger] final(self)@.parked[j]).slot
                    matches SlotV::Parent(p) && p == candidate_hash(b@)),
            forall|j: int|
                0 <= j < final(self)@.parked.len() ==> parked_from(
                    #[trigger] final(self)@.parked[j],
                    old(self)@.parked,
                    now,
                    old(self)@.current_height,
                ),
    {
        let ghost pre = self@;
        let r = self.try_accept(b, now);
        match r {
            Err(e) => {
                proof {
                    lemma_accept_monotone(pre, self@, b@, now);
                    lemma_remove_parked_sub(pre.parked, candidate_hash(b@));
                    assert forall|j: int| 0 <= j < self@.parked.len() implies parked_from(
                        #[trigger] self@.parked[j],
                        pre.parked,
                        now,
                        pre.current_height,
                    ) by {
                        if e == Error::Duplicate || e == Error::Malformed {
                            assert(self@.parked[j] == pre.parked[j]);
                        } else {
                            let rp = remove_parked(pre.parked, candidate_hash(b@));
                            assert(self@.parked.drop_last() =~= rp);
                            if j < self@.parked.len() - 1 {
                                assert(self@.parked[j] == rp[j]);
                                let w = choose|w: int|
                                    0 <= w < pre.parked.len() && pre.parked[w] == rp[j];
                                assert(pre.parked[w] == self@.parked[j]);
                            } else {
                                assert(self@.parked[j] == self@.parked.last());
                                if e == Error::FutureHeight {
                                    assert(self@.parked[j].slot == SlotV::Height(
                                        b@.block.height,
                                    ));
                                    assert(b@.block.height > pre.current_height + 1);
                                } else if e == Error::FutureTime {
                                    assert(self@.parked[j].slot == SlotV::Time(
                                        b@.block.proof.timestamp,
                                    ));
                                    assert(b@.block.proof.timestamp > now);
                                } else {
                                    assert(self@.parked[j].slot == SlotV::Parent(
                                        b@.block.pre_hash,
                                    ));
                                }
                            }
                        }
                    }
                }
                return Err(e);
            },
            Ok(()) => {},
        }
        let h = codec::block_hash(&b.block);
        let ghost ch = candidate_hash(b@);
        proof {
            let p = choose|p: int| #[trigger] install_pick(pre, self@, b@, p);
            assert(install_pick(pre, self@, b@, p));
            assert(self@.blocks == pre.blocks.insert(ch, b@));
        }
        let ghost sacc = self@;
        let mut queue: Vec<SignedBlock> = self.take_children(&h);
        proof {
            lemma_remove_parked_sub(pre.parked, ch);
            assert(sacc.parked == remove_parked(pre.parked, ch));
            assert forall|j: int| 0 <= j < self@.parked.len() implies parked_from(
                #[trigger] self@.parked[j],
                pre.parked,
                now,
                pre.current_height,
            ) && !(self@.parked[j].slot matches SlotV::Parent(p) && p == ch) by {
                let w1 = choose|w1: int|
                    0 <= w1 < sacc.parked.len() && sacc.parked[w1] == #[trigger] self@.parked[j];
                let w2 = choose|w2: int|
                    0 <= w2 < pre.parked.len() && pre.parked[w2] == remove_parked(
                        pre.parked,
                        ch,
                    )[w1];
                assert(pre.parked[w2] == self@.parked[j]);
            }
        }
        while queue.len() > 0
            invariant
                b.wf(),
                self.wf(),
                candidate_hash(b@) == ch,
                self@.blocks.contains_key(ch),
                self@.blocks[ch] == b@,
                forall|k: Seq<u8>| #[trigger]
                    pre.blocks.contains_key(k) ==> self@.blocks.contains_key(k)
                        && self@.blocks[k] == pre.blocks[k],
                self@.current_height >= pre.current_height,
                forall|i: int| 0 <= i < queue@.len() ==> signed_block_v_wf((#[trigger] queue@[i])@),
                forall|i: int|
                    0 <= i < queue@.len() ==> self@.blocks.contains_key(
                        (#[trigger] queue@[i])@.block.pre_hash,
                    ),
                forall|i: int, j: int|
                    0 <= i < queue@.len() && 0 <= j < self@.parked.len() ==> candidate_hash(
                        (#[trigger] queue@[i])@,
                    ) != (#[trigger] self@.parked[j]).hash,
                forall|i: int, j: int|
                    0 <= i < j < queue@.len() ==> candidate_hash((#[trigger] queue@[i])@)
                        != candidate_hash((#[trigger] queue@[j])@),
                forall|j: int|
                    0 <= j < self@.parked.len() ==> parked_from(
                        #[trigger] self@.parked[j],
                        pre.parked,
                        now,
                        pre.current_height,
                    ),
                forall|j: int|
                    0 <= j < self@.parked.len() ==> !((#[trigger] self@.parked[j]).slot
                        matches SlotV::Parent(p) && p == ch),
            decreases queue@.len() + 2 * parent_count(self@.parked),
        {
            let ghost q0 = queue@;
            let nb = match queue.pop() {
                Some(x) => x,
                None => vstd::pervasive::unreached(),
            };
            proof {
                assert(nb@ == q0.last()@);
                assert(queue@ =~= q0.drop_last());
                assert(forall|i: int| 0 <= i < queue@.len() ==> (#[trigger] queue@[i]) == q0[i]);
            }
            let ghost spre = self@;
            let res = self.try_accept(&nb, now);
            proof {
                assert(self@.blocks.contains_key(nb@.block.pre_hash)) by {
                    assert(spre.blocks.contains_key(q0[q0.len() - 1]@.block.pre_hash));
                }
            }
            match res {
                Ok(()) => {
                    proof {
                        let p = choose|p: int| #[trigger] install_pick(spre, self@, nb@, p);
                        assert(install_pick(spre, self@, nb@, p));
                        assert(!spre.blocks.contains_key(candidate_hash(nb@)));
                        assert forall|k: Seq<u8>|
                            pre.blocks.contains_key(k) implies self@.blocks.contains_key(k)
                            && self@.blocks[k] == pre.blocks[k] by {
                            assert(spre.blocks.contains_key(k));
                            assert(spre.blocks[k] == pre.blocks[k]);
                        }
                        assert(forall|j: int|
                            0 <= j < spre.parked.len() ==> (#[trigger] spre.parked[j]).hash
                                != candidate_hash(nb@));
                        lemma_remove_parked_absent(spre.parked, candidate_hash(nb@));
                        assert(self@.parked == spre.parked);
                    }
                    let nh = codec::block_hash(&nb.block);
                    let ghost smid = self@;
                    let mut more = self.take_children(&nh);
                    proof {
                        lemma_take_shape(smid.parked, nh@);
                    }
                    let ghost m0 = more@;
                    queue.append(&mut more);
                    proof {
                        assert(queue@ =~= q0.drop_last() + m0);
                        assert(forall|i: int|
                            0 <= i < q0.len() - 1 ==> (#[trigger] queue@[i]) == q0[i]);
                        assert(forall|i: int|
                            0 <= i < m0.len() ==> (#[trigger] queue@[q0.len() - 1 + i]) == m0[i]);
                        assert forall|i: int, j: int|
                            0 <= i < queue@.len() && 0 <= j < self@.parked.len() implies candidate_hash(
                            (#[trigger] queue@[i])@,
                        ) != (#[trigger] self@.parked[j]).hash by {
                            let w = choose|w: int|
                                0 <= w < smid.parked.len() && smid.parked[w] == #[trigger] keep_rest(
                                    smid.parked,
                                    nh@,
                                )[j];
                            assert(self@.parked[j] == keep_rest(smid.parked, nh@)[j]);
                            if i < q0.len() - 1 {
                                assert(queue@[i] == q0[i]);
                                assert(candidate_hash(q0[i]@) != smid.parked[w].hash);
                            } else {
                                assert(queue@[i] == m0[i - (q0.len() - 1)]);
                            }
                        }
                        assert forall|i: int, j: int|
                            0 <= i < j < queue@.len() implies candidate_hash(
                            (#[trigger] queue@[i])@,
                        ) != candidate_hash((#[trigger] queue@[j])@) by {
                            if j < q0.len() - 1 {
                            } else if i >= q0.len() - 1 {
                                assert(queue@[i] == m0[i - (q0.len() - 1)]);
                                assert(queue@[j] == m0[j - (q0.len() - 1)]);
                            } else {
                                assert(queue@[i] == q0[i]);
                                assert(queue@[j] == m0[j - (q0.len() - 1)]);
                                let w = choose|w: int|
                                    0 <= w < smid.parked.len() && candidate_hash(
                                        (#[trigger] m0[j - (q0.len() - 1)])@,
                                    ) == smid.parked[w].hash;
                                assert(candidate_hash(q0[i]@) != smid.parked[w].hash);
                            }
                        }
                        assert(parent_count(self@.parked) + m0.len() == parent_count(
                            smid.parked,
                        ));
                        assert forall|j: int| 0 <= j < self@.parked.len() implies parked_from(
                            #[trigger] self@.parked[j],
                            pre.parked,
                            now,
                            pre.current_height,
                        ) && !(self@.parked[j].slot matches SlotV::Parent(p) && p == ch) by {
                            let w = choose|w: int|
                                0 <= w < smid.parked.len() && smid.parked[w]
                                    == #[trigger] self@.parked[j];
                            assert(parked_from(smid.parked[w], pre.parked, now,
                                pre.current_height));
                        }
                    }
                },
                Err(e) => {
                    proof {
                        assert(e != Error::MissParent) by {
                            if accept_outcome(spre, nb@, now) == Result::<(), Error>::Err(
                                Error::MissParent,
                            ) {
                                assert(!spre.blocks.contains_key(nb@.block.pre_hash));
                                assert(spre.blocks.contains_key(q0[q0.len() - 1]@.block.pre_hash));
                            }
                        }
                        if e == Error::FutureHeight || e == Error::FutureTime {
                            assert(forall|j: int|
                                0 <= j < spre.parked.len() ==> (#[trigger] spre.parked[j]).hash
                                    != candidate_hash(nb@));
                            lemma_remove_parked_absent(spre.parked, candidate_hash(nb@));
                            assert(self@.parked =~= spre.parked.push(self@.parked.last()));
                            assert(self@.parked.drop_last() =~= spre.parked);
                            assert(!(self@.parked.last().slot is Parent));
                            assert(parent_count(self@.parked) == parent_count(spre.parked));
                            assert(self@.parked.last().hash == candidate_hash(nb@));
                            assert forall|i: int, j: int|
                                0 <= i < queue@.len() && 0 <= j
                                    < self@.parked.len() implies candidate_hash(
                                (#[trigger] queue@[i])@,
                            ) != (#[trigger] self@.parked[j]).hash by {
                                assert(queue@[i] == q0[i]);
                                if j < spre.parked.len() {
                                    assert(self@.parked[j] == spre.parked[j]);
                                } else {
                                    assert(self@.parked[j].hash == candidate_hash(nb@));
                                    assert(candidate_hash(q0[i]@) != candidate_hash(
                                        q0[q0.len() - 1]@,
                                    ));
                                }
                            }
                            assert forall|j: int|
                                0 <= j < self@.parked.len() implies parked_from(
                                #[trigger] self@.parked[j],
                                pre.parked,
                                now,
                                pre.current_height,
                            ) && !(self@.parked[j].slot matches SlotV::Parent(p) && p == ch) by {
                                if j < spre.parked.len() {
                                    assert(self@.parked[j] == spre.parked[j]);
                                } else {
                                    assert(self@.parked[j] == self@.parked.last());
                                    if e == Error::FutureHeight {
                                        assert(self@.parked[j].slot == SlotV::Height(
                                            nb@.block.height,
                                        ));
                                        assert(nb@.block.height > spre.current_height + 1);
                                        assert(spre.current_height >= pre.current_height);
                                    } else {
                                        assert(self@.parked[j].slot == SlotV::Time(
                                            nb@.block.proof.timestamp,
                                        ));
                                        assert(nb@.block.proof.timestamp > now);
                                    }
                                }
                            }
                        } else {
                            assert(self@ == spre);
                        }
                    }
                },
            }
        }
        Ok(())
    }

    /// Applies one maintenance request: where the canonical index does not
    /// already record `hash` at `height`, the index is rewritten from
    /// `(height, hash)` backward along parent links until it converges
    /// with the previous history or reaches the bottom.
    pub fn process_reorg(&mut self, height: u64, hash: H256)
        requires
            old(self).wf(),
            height <= old(self)@.current_height,
            hash@.len() == 32,
        ensures
            final(self).wf(),
            final(self)@ == (ChainV {
                main: reorg_main(old(self)@.blocks, old(self)@.main, height, hash@),
                ..old(self)@
            }),
    {
        let ghost pre = self@;
        let mut hh = height;
        let mut cur = hash;
        loop
            invariant
                pre == old(self)@,
                self.wf(),
                hh <= self@.current_height,
                cur@.len() == 32,
                self@.blocks == pre.blocks,
                self@.forks == pre.forks,
                self@.current_height == pre.current_height,
                self@.current_hash == pre.current_hash,
                self@.parked == pre.parked,
                self@.reorg_queue == pre.reorg_queue,
                reorg_main(pre.blocks, self@.main, hh, cur@) == reorg_main(
                    pre.blocks,
                    pre.main,
                    height,
                    hash@,
                ),
            decreases hh,
        {
            if hh == 0 {
                proof {
                    assert(self@ =~~= (ChainV {
                        main: reorg_main(pre.blocks, pre.main, height, hash@),
                        ..pre
                    }));
                }
                return ;
            }
            let stop = match self.main.get(hh) {
                Some(mh) => *mh == cur,
                None => false,
            };
            if stop {
                proof {
                    assert(reorg_main(pre.blocks, self@.main, hh, cur@) == self@.main);
                    assert(self@ =~~= (ChainV {
                        main: reorg_main(pre.blocks, pre.main, height, hash@),
                        ..pre
                    }));
                }
                return ;
            }
            self.main.insert(hh, cur.clone());
            let next = match self.blocks.get(&cur) {
                Some(sb) => Some(sb.block.pre_hash.clone()),
                None => None,
            };
            match next {
                None => {
                    proof {
                        assert(self@ =~~= (ChainV {
                            main: reorg_main(pre.blocks, pre.main, height, hash@),
                            ..pre
                        }));
                    }
                    return ;
                },
                Some(p) => {
                    proof {
                        assert(pre.blocks.contains_key(cur@));
                        assert(signed_block_v_wf(pre.blocks[cur@]));
                        assert(p@ == pre.blocks[cur@].block.pre_hash);
                    }
                    cur = p;
                    hh = hh - 1;
                },
            }
        }
    }

    /// Consumes the maintenance queue, strictly in enqueue order.
    pub fn run_maintenance(&mut self)
        requires
            old(self).wf(),
        ensures
            final(self).wf(),
            final(self)@ == (ChainV {
                main: run_queue(old(self)@.blocks, old(self)@.main, old(self)@.reorg_queue),
                reorg_queue: Seq::<(u64, Seq<u8>)>::empty(),
                ..old(self)@
            }),
    {
        let ghost pre = self@;
        while self.reorg_queue.len() > 0
            invariant
                self.wf(),
                self@.blocks == pre.blocks,
                self@.forks == pre.forks,
                self@.current_height == pre.current_height,
                self@.current_hash == pre.current_hash,
                self@.parked == pre.parked,
                run_queue(pre.blocks, self@.main, self@.reorg_queue) == run_queue(
                    pre.blocks,
                    pre.main,
                    pre.reorg_queue,
                ),
            decreases self@.reorg_queue.len(),
        {
            let ghost q0 = self@.reorg_queue;
            let entry = self.reorg_queue.remove(0);
            proof {
                assert(self@.reorg_queue =~= q0.drop_first());
                assert((entry.0, entry.1@) == q0[0]);
                assert(q0[0].0 < self@.current_height);
            }
            let hh = entry.0;
            let hashv = entry.1;
            self.process_reorg(hh, hashv);
        }
        proof {
            assert(self@.reorg_queue =~= Seq::<(u64, Seq<u8>)>::empty());
            assert(self@ =~~= (ChainV {
                main: run_queue(pre.blocks, pre.main, pre.reorg_queue),
                reorg_queue: Seq::<(u64, Seq<u8>)>::empty(),
                ..pre
            }));
        }
    }

    /// Removes and returns the parked blocks a filter condemns, rebuilding
    /// the park from the survivors.
    fn take_filtered(&mut self, time_bound: u64, use_time: bool) -> (r: Vec<SignedBlock>)
        requires
            old(self).wf(),
        ensures
            final(self).wf(),
            forall|i: int| 0 <= i < r@.len() ==> signed_block_v_wf((#[trigger] r@[i])@),
            final(self)@.parked == keep_if(old(self)@.parked, use_time, time_bound),
            forall|j: int|
                0 <= j < final(self)@.parked.len() ==> !due_for_replay(
                    #[trigger] final(self)@.parked[j],
                    use_time,
                    time_bound,
                ),
            forall|j: int|
                0 <= j < final(self)@.parked.len() ==> exists|i: int|
                    0 <= i < old(self)@.parked.len() && old(self)@.parked[i]
                        == #[trigger] final(self)@.parked[j],
            final(self)@.blocks == old(self)@.blocks,
            final(self)@.main == old(self)@.main,
            final(self)@.forks == old(self)@.forks,
            final(self)@.current_height == old(self)@.current_height,
            final(self)@.current_hash == old(self)@.current_hash,
            final(self)@.reorg_queue == old(self)@.reorg_queue,
    {
        let ghost s0 = self@.parked;
        let mut out: Vec<SignedBlock> = Vec::new();
        let mut kept: Vec<Parked> = Vec::new();
        let mut i: usize = 0;
        while i < self.parked.len()
            invariant
                i <= self.parked@.len(),
                s0 == self@.parked,
                *self == *old(self),
                old(self).wf(),
                Seq::new(kept@.len(), |j: int| kept@[j]@) == keep_if(
                    s0.subrange(0, i as int),
                    use_time,
                    time_bound,
                ),
                forall|j: int| 0 <= j < out@.len() ==> signed_block_v_wf((#[trigger] out@[j])@),
            decreases self.parked@.len() - i,
        {
            let ghost prefix = s0.subrange(0, i as int);
            proof {
                assert(s0.subrange(0, i + 1).drop_last() =~= prefix);
                assert(s0.subrange(0, i + 1).last() == s0[i as int]);
                assert(self@.parked[i as int] == s0[i as int]);
            }
            let due = if use_time {
                match &self.parked[i].slot {
                    Slot::Time(t) => *t < time_bound,
                    _ => false,
                }
            } else {
                match &self.parked[i].slot {
                    Slot::Height(k) => *k <= time_bound,
                    _ => false,
                }
            };
            proof {
                assert(due == due_for_replay(s0[i as int], use_time, time_bound));
            }
            if due {
                out.push(self.parked[i].block.clone());
                proof {
                    assert(keep_if(s0.subrange(0, i + 1), use_time, time_bound) =~= keep_if(
                        prefix,
                        use_time,
                        time_bound,
                    ));
                    assert(Seq::new(kept@.len(), |j: int| kept@[j]@) =~= keep_if(
                        s0.subrange(0, i + 1),
                        use_time,
                        time_bound,
                    ));
                    assert(signed_block_v_wf(out@.last()@));
                }
            } else {
                kept.push(clone_parked(&self.parked[i]));
                proof {
                    assert(keep_if(s0.subrange(0, i + 1), use_time, time_bound) =~= keep_if(
                        prefix,
                        use_time,
                        time_bound,
                    ).push(s0[i as int]));
                    assert(Seq::new(kept@.len(), |j: int| kept@[j]@) =~= keep_if(
                        s0.subrange(0, i + 1),
                        use_time,
                        time_bound,
                    ));
                }
            }
            i += 1;
        }
        proof {
            assert(s0.subrange(0, s0.len() as int) =~= s0);
        }
        self.parked = kept;
        proof {
            assert(self@.parked =~= keep_if(s0, use_time, time_bound));
            lemma_keep_if(s0, use_time, time_bound);
            assert forall|j: int| 0 <= j < self@.parked.len() implies signed_block_v_wf(
                (#[trigger] self@.parked[j]).block,
            ) && self@.parked[j].hash == candidate_hash(self@.parked[j].block)
                && self@.parked[j].hash.len() == 32 && (self@.parked[j].slot matches SlotV::Parent(
                p,
            ) ==> p == self@.parked[j].block.block.pre_hash) by {
                let w = choose|w: int|
                    0 <= w < s0.len() && s0[w] == #[trigger] keep_if(s0, use_time, time_bound)[j];
                assert(s0[w] == self@.parked[j]);
            }
            assert forall|a: int, c: int|
                0 <= a < c < self@.parked.len() implies (#[trigger] self@.parked[a]).hash != (
            #[trigger] self@.parked[c]).hash by {
                assert(self@.parked[a] == keep_if(s0, use_time, time_bound)[a]);
                assert(self@.parked[c] == keep_if(s0, use_time, time_bound)[c]);
            }
            assert forall|j: int| 0 <= j < self@.parked.len() implies !due_for_replay(
                #[trigger] self@.parked[j],
                use_time,
                time_bound,
            ) && exists|i: int| 0 <= i < s0.len() && s0[i] == self@.parked[j] by {
                assert(self@.parked[j] == keep_if(s0, use_time, time_bound)[j]);
                let w = choose|w: int|
                    0 <= w < s0.len() && s0[w] == #[trigger] keep_if(s0, use_time, time_bound)[j];
                assert(s0[w] == self@.parked[j]);
            }
            assert(self.stores_wf());
            assert(self@.main == old(self)@.main);
            assert(self@.blocks == old(self)@.blocks);
            assert(self@.forks == old(self)@.forks);
            assert(self@.reorg_queue == old(self)@.reorg_queue);
            assert(forall|h: u64| #[trigger]
                self@.main.contains_key(h) <==> 1 <= h <= self@.current_height);
            assert(forall|h: u64| #[trigger] self@.forks.contains_key(h) ==> self@.forks[h].len()
                >= 1);
            assert(forall|h: u64, i: int|
                self@.forks.contains_key(h) && 0 <= i < self@.forks[h].len()
                    ==> self@.blocks.contains_key(#[trigger] self@.forks[h][i]));
            assert(forall|k: Seq<u8>| #[trigger] self@.blocks.contains_key(k) ==> {
                &&& k.len() == 32
                &&& signed_block_v_wf(self@.blocks[k])
                &&& self@.blocks[k].block.height >= 1
                &&& (self@.blocks[k].block.height == 1 ==> self@.blocks[k].block.pre_hash
                    == zero_hash())
                &&& (self@.blocks[k].block.height > 1 ==> self@.blocks.contains_key(
                    self@.blocks[k].block.pre_hash,
                ))
            });
            assert(forall|i: int|
                0 <= i < self@.reorg_queue.len() ==> (#[trigger] self@.reorg_queue[i]).0
                    < self@.current_height && (#[trigger] self@.reorg_queue[i]).1.len() == 32);
            assert(chain_wf(self@));
        }
        out
    }

    /// One tick of the future-replay worker: blocks whose proof timestamp
    /// has passed leave the timestamp bucket and are re-ingested, then
    /// blocks whose height has come within reach leave the height bucket
    /// and are re-ingested. Failures are absorbed: such a block is parked
    /// again or dropped as its attempt says.
    pub fn replay(&mut self, now: u64)
        requires
            old(self).wf(),
        ensures
            final(self).wf(),
            forall|k: Seq<u8>| #[trigger]
                old(self)@.blocks.contains_key(k) ==> final(self)@.blocks.contains_key(k)
                    && final(self)@.blocks[k] == old(self)@.blocks[k],
            final(self)@.current_height >= old(self)@.current_height,
            forall|i: int|
                0 <= i < final(self)@.parked.len() ==> !((#[trigger] final(self)@.parked[i]).slot
                    matches SlotV::Time(t) && t < now),
            forall|i: int|
                0 <= i < final(self)@.parked.len() ==> !((#[trigger] final(self)@.parked[i]).slot
                    matches SlotV::Height(k) && k <= old(self)@.current_height + 1),
    {
        let ghost pre = self@;
        let due_time = self.take_filtered(now, true);
        let mut i: usize = 0;
        while i < due_time.len()
            invariant
                i <= due_time@.len(),
                self.wf(),
                forall|j: int|
                    0 <= j < due_time@.len() ==> signed_block_v_wf((#[trigger] due_time@[j])@),
                forall|k: Seq<u8>| #[trigger]
                    pre.blocks.contains_key(k) ==> self@.blocks.contains_key(k) && self@.blocks[k]
                        == pre.blocks[k],
                self@.current_height >= pre.current_height,
                forall|jj: int|
                    0 <= jj < self@.parked.len() ==> !((#[trigger] self@.parked[jj]).slot
                        matches SlotV::Time(t) && t < now),
            decreases due_time@.len() - i,
        {
            let ghost sit = self@;
            let _ = self.insert(&due_time[i], now);
            proof {
                assert forall|jj: int| 0 <= jj < self@.parked.len() implies !((
                #[trigger] self@.parked[jj]).slot matches SlotV::Time(t) && t < now) by {
                    assert(parked_from(self@.parked[jj], sit.parked, now, sit.current_height));
                    if self@.parked[jj].slot matches SlotV::Time(t) && t <= now {
                        let w = choose|w: int|
                            0 <= w < sit.parked.len() && #[trigger] sit.parked[w]
                                == self@.parked[jj];
                        assert(sit.parked[w] == self@.parked[jj]);
                    }
                }
            }
            i += 1;
        }
        let bound = if self.current_height == u64::MAX {
            u64::MAX
        } else {
            self.current_height + 1
        };
        let ghost cur_mid = self@.current_height;
        let ghost smid = self@;
        let due_height = self.take_filtered(bound, false);
        proof {
            assert forall|jj: int| 0 <= jj < self@.parked.len() implies !((
            #[trigger] self@.parked[jj]).slot matches SlotV::Time(t) && t < now) && !(
            self@.parked[jj].slot matches SlotV::Height(k) && k <= bound) by {
                assert(!due_for_replay(self@.parked[jj], false, bound));
                let w = choose|w: int|
                    0 <= w < smid.parked.len() && smid.parked[w] == #[trigger] self@.parked[jj];
                assert(smid.parked[w] == self@.parked[jj]);
            }
        }
        let mut j: usize = 0;
        while j < due_height.len()
            invariant
                j <= due_height@.len(),
                self.wf(),
                forall|jj: int|
                    0 <= jj < due_height@.len() ==> signed_block_v_wf(
                        (#[trigger] due_height@[jj])@,
                    ),
                forall|k: Seq<u8>| #[trigger]
                    pre.blocks.contains_key(k) ==> self@.blocks.contains_key(k) && self@.blocks[k]
                        == pre.blocks[k],
                self@.current_height >= pre.current_height,
                self@.current_height >= cur_mid,
                cur_mid >= pre.current_height,
                bound == (if cur_mid == u64::MAX {
                    u64::MAX
                } else {
                    (cur_mid + 1) as u64
                }),
                forall|jj: int|
                    0 <= jj < self@.parked.len() ==> !((#[trigger] self@.parked[jj]).slot
                        matches SlotV::Time(t) && t < now),
                forall|jj: int|
                    0 <= jj < self@.parked.len() ==> !((#[trigger] self@.parked[jj]).slot
                        matches SlotV::Height(k) && k <= bound),
            decreases due_height@.len() - j,
        {
            let ghost sit = self@;
            let _ = self.insert(&due_height[j], now);
            proof {
                assert forall|jj: int| 0 <= jj < self@.parked.len() implies !((
                #[trigger] self@.parked[jj]).slot matches SlotV::Time(t) && t < now) && !(
                self@.parked[jj].slot matches SlotV::Height(k) && k <= bound) by {
                    assert(parked_from(self@.parked[jj], sit.parked, now, sit.current_height));
                    let bad_time = self@.parked[jj].slot matches SlotV::Time(t) && t <= now;
                    let bad_height = self@.parked[jj].slot matches SlotV::Height(k) && k
                        <= bound;
                    if bad_time || bad_height {
                        assert(sit.current_height + 1 >= bound);
                        let w = choose|w: int|
                            0 <= w < sit.parked.len() && #[trigger] sit.parked[w]
                                == self@.parked[jj];
                        assert(sit.parked[w] == self@.parked[jj]);
                    }
                }
            }
            j += 1;
        }
    }
}

/// The canonical index after one maintenance request `(height, hash)`: if
/// the index already records `hash` at `height` nothing happens; otherwise
/// the walk overwrites the index and follows the parent link downward,
/// stopping at convergence with the previous history, at height 0, or at a
/// hash that is not admitted.
pub open spec fn reorg_main(
    blocks: Map<Seq<u8>, SignedBlockV>,
    main: Map<u64, Seq<u8>>,
    height: u64,
    hash: Seq<u8>,
) -> Map<u64, Seq<u8>>
    decreases height,
{
    if height == 0 {
        main
    } else if main.contains_key(height) && main[height] == hash {
        main
    } else if !blocks.contains_key(hash) {
        main.insert(height, hash)
    } else {
        reorg_main(
            blocks,
            main.insert(height, hash),
            (height - 1) as u64,
            blocks[hash].block.pre_hash,
        )
    }
}

/// The canonical index after the whole maintenance queue is consumed, in
/// enqueue order.
pub open spec fn run_queue(
    blocks: Map<Seq<u8>, SignedBlockV>,
    main: Map<u64, Seq<u8>>,
    q: Seq<(u64, Seq<u8>)>,
) -> Map<u64, Seq<u8>>
    decreases q.len(),
{
    if q.len() == 0 {
        main
    } else {
        run_queue(blocks, reorg_main(blocks, main, q[0].0, q[0].1), q.drop_first())
    }
}

/// Whether a replay drain condemns a parked entry: a timestamp bucket
/// whose key has passed, or a height bucket whose key is within reach.
pub open spec fn due_for_replay(e: ParkedV, by_time: bool, bound: u64) -> bool {
    if by_time {
        e.slot matches SlotV::Time(t) && t < bound
    } else {
        e.slot matches SlotV::Height(k) && k <= bound
    }
}

/// The parked entries a replay drain keeps, in order.
pub open spec fn keep_if(s: Seq<ParkedV>, by_time: bool, bound: u64) -> Seq<ParkedV>
    decreases s.len(),
{
    if s.len() == 0 {
        Seq::empty()
    } else if !due_for_replay(s.last(), by_time, bound) {
        keep_if(s.drop_last(), by_time, bound).push(s.last())
    } else {
        keep_if(s.drop_last(), by_time, bound)
    }
}

proof fn lemma_keep_if(s: Seq<ParkedV>, by_time: bool, bound: u64)
    requires
        forall|a: int, c: int|
            0 <= a < c < s.len() ==> (#[trigger] s[a]).hash != (#[trigger] s[c]).hash,
    ensures
        forall|j: int|
            0 <= j < keep_if(s, by_time, bound).len() ==> (exists|i: int|
                0 <= i < s.len() && s[i] == #[trigger] keep_if(s, by_time, bound)[j])
                && !due_for_replay(keep_if(s, by_time, bound)[j], by_time, bound),
        forall|a: int, c: int|
            0 <= a < c < keep_if(s, by_time, bound).len() ==> (#[trigger] keep_if(
                s,
                by_time,
                bound,
            )[a]).hash != (#[trigger] keep_if(s, by_time, bound)[c]).hash,
    decreases s.len(),
{
    if s.len() > 0 {
        let sd = s.drop_last();
        assert(forall|i: int| 0 <= i < sd.len() ==> (#[trigger] sd[i]) == s[i]);
        lemma_keep_if(sd, by_time, bound);
        let kd = keep_if(sd, by_time, bound);
        assert forall|j: int| 0 <= j < kd.len() implies (exists|i: int|
            0 <= i < s.len() && s[i] == #[trigger] kd[j]) && (#[trigger] kd[j]).hash
            != s.last().hash by {
            let w = choose|w: int| 0 <= w < sd.len() && sd[w] == kd[j];
            assert(s[w] == kd[j]);
            assert(s[w].hash != s[s.len() - 1].hash);
        }
    }
}

/// A failed attempt leaves the block graph and the tip as they were.
proof fn lemma_accept_monotone(pre: ChainV, post: ChainV, b: SignedBlockV, now: u64)
    requires
        accept_outcome(pre, b, now) is Err,
        accept_post(pre, post, b, now),
    ensures
        forall|k: Seq<u8>|
            pre.blocks.contains_key(k) ==> post.blocks.contains_key(k) && post.blocks[k]
                == pre.blocks[k],
        post.current_height >= pre.current_height,
{
}

/// Admission preserves the chain invariant.
proof fn lemma_install_wf(pre: ChainV, post: ChainV, b: SignedBlockV)
    requires
        chain_wf(pre),
        signed_block_v_wf(b),
        candidate_hash(b).len() == 32,
        !pre.blocks.contains_key(candidate_hash(b)),
        b.block.height >= 1,
        b.block.height <= pre.current_height + 1,
        b.block.height == 1 ==> b.block.pre_hash == zero_hash(),
        b.block.height > 1 ==> pre.blocks.contains_key(b.block.pre_hash),
        install_post(pre, post, b),
        forall|j: int|
            0 <= j < post.parked.len() ==> exists|i: int|
                0 <= i < pre.parked.len() && pre.parked[i] == #[trigger] post.parked[j],
        forall|a: int, c: int|
            0 <= a < c < post.parked.len() ==> (#[trigger] post.parked[a]).hash != (
            #[trigger] post.parked[c]).hash,
    ensures
        chain_wf(post),
{
    let h = candidate_hash(b);
    let newforks = forks_after(pre, b);
    let p = choose|p: int| #[trigger] install_pick(pre, post, b, p);
    assert(install_pick(pre, post, b, p));
    assert forall|k: Seq<u8>| #[trigger] post.blocks.contains_key(k) implies {
        &&& k.len() == 32
        &&& signed_block_v_wf(post.blocks[k])
        &&& post.blocks[k].block.height >= 1
        &&& (post.blocks[k].block.height == 1 ==> post.blocks[k].block.pre_hash == zero_hash())
        &&& (post.blocks[k].block.height > 1 ==> post.blocks.contains_key(
            post.blocks[k].block.pre_hash,
        ))
    } by {
        if k != h {
            assert(pre.blocks.contains_key(k));
        }
    }
    assert forall|hh: u64, i: int|
        post.forks.contains_key(hh) && 0 <= i < post.forks[hh].len() implies post.blocks.contains_key(
        #[trigger] post.forks[hh][i],
    ) by {
        if hh == b.block.height {
            if i < post.forks[hh].len() - 1 {
                assert(pre.forks.contains_key(hh));
                assert(post.forks[hh][i] == pre.forks[hh][i]);
            }
        } else {
            assert(pre.forks.contains_key(hh));
            assert(post.forks[hh] == pre.forks[hh]);
        }
    }
    assert forall|i: int| 0 <= i < post.parked.len() implies signed_block_v_wf(
        (#[trigger] post.parked[i]).block,
    ) && post.parked[i].hash == candidate_hash(post.parked[i].block) && post.parked[i].hash.len()
        == 32 && (post.parked[i].slot matches SlotV::Parent(p) ==> p
        == post.parked[i].block.block.pre_hash) by {
        let w = choose|w: int| 0 <= w < pre.parked.len() && pre.parked[w] == post.parked[i];
        assert(pre.parked[w] == post.parked[i]);
    }
    if b.block.height >= pre.current_height {
        assert(post.blocks.contains_key(newforks[p])) by {
            if p < newforks.len() - 1 {
                assert(pre.forks.contains_key(b.block.height));
                assert(newforks[p] == pre.forks[b.block.height][p]);
            }
        }
        assert(post.current_hash.len() == 32);
        assert forall|hh: u64| #[trigger] post.main.contains_key(hh) implies 1 <= hh
            <= post.current_height by {}
        assert forall|hh: u64| 1 <= hh <= post.current_height implies post.main.contains_key(
            hh,
        ) by {
            if hh < b.block.height {
                assert(pre.main.contains_key(hh));
            }
        }
        assert forall|i: int| 0 <= i < post.reorg_queue.len() implies (
        #[trigger] post.reorg_queue[i]).0 < post.current_height && post.reorg_queue[i].1.len()
            == 32 by {
            if i < pre.reorg_queue.len() {
                assert(pre.reorg_queue[i] == post.reorg_queue[i]);
            } else {
                assert(post.blocks.contains_key(newforks[p]));
                assert(signed_block_v_wf(post.blocks[newforks[p]]));
            }
        }
    }
}

/// Copies a slot.
fn clone_slot(s: &Slot) -> (r: Slot)
    ensures
        r@ == s@,
{
    match s {
        Slot::Height(h) => Slot::Height(*h),
        Slot::Time(t) => Slot::Time(*t),
        Slot::Parent(p) => Slot::Parent(p.clone()),
    }
}

/// Copies a parked entry.
fn clone_parked(e: &Parked) -> (r: Parked)
    ensures
        r@ == e@,
{
    let r = Parked { block: e.block.clone(), hash: e.hash.clone(), slot: clone_slot(&e.slot) };
    proof {
        assert(r@ =~= e@);
    }
    r
}

/// Copies a vector of hashes.
fn clone_hash_vec(v: &Vec<H256>) -> (r: Vec<H256>)
    ensures
        r@.len() == v@.len(),
        forall|i: int| 0 <= i < v@.len() ==> (#[trigger] r@[i])@ == v@[i]@,
{
    let mut r: Vec<H256> = Vec::new();
    let mut i: usize = 0;
    while i < v.len()
        invariant
            i <= v@.len(),
            r@.len() == i,
            forall|j: int| 0 <= j < i ==> (#[trigger] r@[j])@ == v@[j]@,
        decreases v@.len() - i,
    {
        r.push(v[i].clone());
        i += 1;
    }
    r
}

/// Parking preserves the chain invariant: only the park changed, and the
/// new entry satisfies every parked clause.
proof fn lemma_park_keeps_wf(pre: ChainV, post: ChainV, b: SignedBlockV, slot: SlotV)
    requires
        chain_wf(pre),
        signed_block_v_wf(b),
        candidate_hash(b).len() == 32,
        (slot matches SlotV::Parent(p) ==> p == b.block.pre_hash),
        post == park_post(pre, b, slot),
        forall|j: int|
            0 <= j < post.parked.len() - 1 ==> exists|i: int|
                0 <= i < pre.parked.len() && pre.parked[i] == #[trigger] post.parked[j],
        forall|a: int, c: int|
            0 <= a < c < post.parked.len() ==> (#[trigger] post.parked[a]).hash != (
            #[trigger] post.parked[c]).hash,
    ensures
        chain_wf(post),
{
    assert(post.parked.last() == ParkedV { block: b, hash: candidate_hash(b), slot });
    assert forall|i: int| 0 <= i < post.parked.len() implies signed_block_v_wf(
        (#[trigger] post.parked[i]).block,
    ) && post.parked[i].hash == candidate_hash(post.parked[i].block) && post.parked[i].hash.len()
        == 32 && (post.parked[i].slot matches SlotV::Parent(p) ==> p
        == post.parked[i].block.block.pre_hash) by {
        if i < post.parked.len() - 1 {
            let w = choose|w: int| 0 <= w < pre.parked.len() && pre.parked[w] == post.parked[i];
            assert(pre.parked[w] == post.parked[i]);
        }
    }
}

/// Whether a block waits in the height bucket.
pub open spec fn in_height_future(c: ChainV, b: SignedBlockV) -> bool {
    exists|i: int|
        0 <= i < c.parked.len() && (#[trigger] c.parked[i]).block == b && c.parked[i].slot is Height
}

/// Whether a block waits in the timestamp bucket.
pub open spec fn in_timestamp_future(c: ChainV, b: SignedBlockV) -> bool {
    exists|i: int|
        0 <= i < c.parked.len() && (#[trigger] c.parked[i]).block == b && c.parked[i].slot is Time
}

/// Whether a block waits in the parent bucket.
pub open spec fn in_parent_future(c: ChainV, b: SignedBlockV) -> bool {
    exists|i: int|
        0 <= i < c.parked.len() && (#[trigger] c.parked[i]).block == b && c.parked[i].slot is Parent
}

/// The canonical index covers exactly the heights from 1 up to the tip: on
/// a well-formed chain every height of `main` lies in that range, and
/// whenever the tip is above 0 the tip's height is indexed.
pub proof fn lemma_main_index(c: &Chain)
    requires
        c.wf(),
    ensures
        forall|h: u64| #[trigger] c@.main.contains_key(h) ==> 1 <= h <= c@.current_height,
        c@.current_height >= 1 ==> c@.main.contains_key(c@.current_height),
{
}

/// Every fork list is non-empty and every hash in it is admitted.
pub proof fn lemma_forks_admitted(c: &Chain)
    requires
        c.wf(),
    ensures
        forall|h: u64| #[trigger] c@.forks.contains_key(h) ==> c@.forks[h].len() >= 1,
        forall|h: u64, i: int|
            c@.forks.contains_key(h) && 0 <= i < c@.forks[h].len() ==> c@.blocks.contains_key(
                #[trigger] c@.forks[h][i],
            ),
{
}

/// Every admitted block above height 1 has its parent admitted.
pub proof fn lemma_parent_closure(c: &Chain)
    requires
        c.wf(),
    ensures
        forall|k: Seq<u8>|
            #[trigger] c@.blocks.contains_key(k) && c@.blocks[k].block.height > 1
                ==> c@.blocks.contains_key(c@.blocks[k].block.pre_hash),
{
}

/// No block waits in two future buckets at once: on a well-formed chain
/// the three buckets are pairwise disjoint.
pub proof fn lemma_single_bucket(c: &Chain, b: SignedBlockV)
    requires
        c.wf(),
    ensures
        !(in_height_future(c@, b) && in_timestamp_future(c@, b)),
        !(in_height_future(c@, b) && in_parent_future(c@, b)),
        !(in_timestamp_future(c@, b) && in_parent_future(c@, b)),
{
    if in_height_future(c@, b) && in_timestamp_future(c@, b) {
        let i = choose|i: int|
            0 <= i < c@.parked.len() && (#[trigger] c@.parked[i]).block == b
                && c@.parked[i].slot is Height;
        let j = choose|j: int|
            0 <= j < c@.parked.len() && (#[trigger] c@.parked[j]).block == b
                && c@.parked[j].slot is Time;
        assert(c@.parked[i].hash == candidate_hash(b));
        assert(c@.parked[j].hash == candidate_hash(b));
        assert(i != j);
        assert(false);
    }
    if in_height_future(c@, b) && in_parent_future(c@, b) {
        let i = choose|i: int|
            0 <= i < c@.parked.len() && (#[trigger] c@.parked[i]).block == b
                && c@.parked[i].slot is Height;
        let j = choose|j: int|
            0 <= j < c@.parked.len() && (#[trigger] c@.parked[j]).block == b
                && c@.parked[j].slot is Parent;
        assert(c@.parked[i].hash == candidate_hash(b));
        assert(c@.parked[j].hash == candidate_hash(b));
        assert(i != j);
        assert(false);
    }
    if in_timestamp_future(c@, b) && in_parent_future(c@, b) {
        let i = choose|i: int|
            0 <= i < c@.parked.len() && (#[trigger] c@.parked[i]).block == b
                && c@.parked[i].slot is Time;
        let j = choose|j: int|
            0 <= j < c@.parked.len() && (#[trigger] c@.parked[j]).block == b
                && c@.parked[j].slot is Parent;
        assert(c@.parked[i].hash == candidate_hash(b));
        assert(c@.parked[j].hash == candidate_hash(b));
        assert(i != j);
        assert(false);
    }
}

} // verus!
