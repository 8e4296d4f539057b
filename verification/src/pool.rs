//! The transaction admission pool: a bounded deduplication filter over a
//! strictly rank-ordered set of admitted transactions, with three insertion
//! strategies and a bounded packaging operation.

use vstd::prelude::*;
use crate::hashes::H256;
use crate::model::{Transaction, TransactionV};
use crate::store::HMap;

verus! {

/// How a rank is assigned to an admitted transaction. All three currently
/// draw from the monotonic counter; `PRIORITY` and `VIP` are extension
/// points.
#[allow(non_camel_case_types)]
#[derive(Clone, Copy, Debug, PartialEq, Eq, Structural)]
pub enum Strategy {
    FIFO,
    PRIORITY,
    VIP,
}

/// An entry of the ordered set: a transaction hash and its rank.
struct TxOrder {
    hash: H256,
    order: u64,
}

impl TxOrder {
    fn new(hash: H256, order: u64) -> (r: TxOrder)
        ensures
            r.hash@ == hash@,
            r.order == order,
    {
        TxOrder { hash, order }
    }
}

/// The ghost value of a pool.
#[verifier::ext_equal]
pub ghost struct PoolV {
    /// The filter's window of remembered hashes, oldest first.
    pub window: Seq<Seq<u8>>,
    /// The filter's capacity.
    pub capacity: nat,
    /// The ordered set: (hash, rank) pairs in strictly ascending rank.
    pub orders: Seq<(Seq<u8>, u64)>,
    /// The content map from hash to transaction.
    pub txs: Map<Seq<u8>, TransactionV>,
    /// The rank the counter hands out next.
    pub next_order: u64,
    /// The most transactions one packaging returns.
    pub package_limit: nat,
    pub strategy: Strategy,
}

/// A pool of pending transactions.
pub struct Pool {
    package_limit: usize,
    capacity: usize,
    window: Vec<H256>,
    order_set: Vec<TxOrder>,
    txs: HMap<Transaction>,
    strategy: Strategy,
    order: u64,
}

impl View for Pool {
    type V = PoolV;

    closed spec fn view(&self) -> PoolV {
        PoolV {
            window: Seq::new(self.window@.len(), |i: int| self.window@[i]@),
            capacity: self.capacity as nat,
            orders: Seq::new(self.order_set@.len(), |i: int| (self.order_set@[i].hash@, self.order_set@[i].order)),
            txs: self.txs@,
            next_order: self.order,
            package_limit: self.package_limit as nat,
            strategy: self.strategy,
        }
    }
}

/// The filter window after admitting a hash: the hash is appended and, where
/// the window would exceed the capacity, the oldest remembered hash is
/// forgotten.
pub open spec fn window_admit(w: Seq<Seq<u8>>, h: Seq<u8>, cap: nat) -> Seq<Seq<u8>> {
    if w.len() + 1 > cap {
        w.push(h).drop_first()
    } else {
        w.push(h)
    }
}

/// The ordered set with a fresh pair inserted at its rank position.
pub open spec fn insert_rank(s: Seq<(Seq<u8>, u64)>, h: Seq<u8>, rank: u64) -> Seq<(Seq<u8>, u64)>
    decreases s.len(),
{
    if s.len() == 0 || s.last().1 < rank {
        s.push((h, rank))
    } else {
        insert_rank(s.drop_last(), h, rank).push(s.last())
    }
}

/// The entries of the ordered set whose hash is not in the removed set.
pub open spec fn kept_orders(s: Seq<(Seq<u8>, u64)>, removed: Set<Seq<u8>>) -> Seq<(Seq<u8>, u64)>
    decreases s.len(),
{
    if s.len() == 0 {
        Seq::empty()
    } else if removed.contains(s.last().0) {
        kept_orders(s.drop_last(), removed)
    } else {
        kept_orders(s.drop_last(), removed).push(s.last())
    }
}

proof fn lemma_insert_rank_at(s: Seq<(Seq<u8>, u64)>, h: Seq<u8>, rank: u64, cut: int)
    requires
        0 <= cut <= s.len(),
        forall|i: int| 0 <= i < cut ==> (#[trigger] s[i]).1 < rank,
        forall|i: int| cut <= i < s.len() ==> (#[trigger] s[i]).1 > rank,
    ensures
        insert_rank(s, h, rank) == s.insert(cut, (h, rank)),
    decreases s.len(),
{
    if s.len() == 0 {
        assert(insert_rank(s, h, rank) =~= s.insert(0, (h, rank)));
    } else if s.last().1 < rank {
        assert(cut == s.len());
        assert(insert_rank(s, h, rank) =~= s.insert(cut, (h, rank)));
    } else {
        assert(cut < s.len());
        assert(forall|i: int| 0 <= i < s.len() - 1 ==> (#[trigger] s.drop_last()[i]) == s[i]);
        lemma_insert_rank_at(s.drop_last(), h, rank, cut);
        assert(insert_rank(s, h, rank) == s.drop_last().insert(cut, (h, rank)).push(s.last()));
        assert(s.drop_last().insert(cut, (h, rank)).push(s.last()) =~= s.insert(cut, (h, rank)));
    }
}

/// The set of ghost hashes of a vector of hashes.
pub open spec fn hash_set_of(s: Seq<H256>) -> Set<Seq<u8>> {
    Set::new(|k: Seq<u8>| exists|i: int| 0 <= i < s.len() && (#[trigger] s[i])@ == k)
}

proof fn lemma_kept_orders(s: Seq<(Seq<u8>, u64)>, removed: Set<Seq<u8>>)
    requires
        forall|i: int, j: int| 0 <= i < j < s.len() ==> (#[trigger] s[i]).1 < (#[trigger] s[j]).1,
    ensures
        forall|i: int, j: int|
            0 <= i < j < kept_orders(s, removed).len() ==> (#[trigger] kept_orders(s, removed)[i]).1
                < (#[trigger] kept_orders(s, removed)[j]).1,
        forall|i: int|
            0 <= i < kept_orders(s, removed).len() ==> !removed.contains(
                (#[trigger] kept_orders(s, removed)[i]).0,
            ) && exists|j: int| 0 <= j < s.len() && s[j] == kept_orders(s, removed)[i],
        forall|j: int|
            0 <= j < s.len() && !removed.contains((#[trigger] s[j]).0) ==> exists|i: int|
                0 <= i < kept_orders(s, removed).len() && kept_orders(s, removed)[i] == s[j],
    decreases s.len(),
{
    if s.len() > 0 {
        let sd = s.drop_last();
        assert(forall|i: int| 0 <= i < sd.len() ==> (#[trigger] sd[i]) == s[i]);
        lemma_kept_orders(sd, removed);
        let kd = kept_orders(sd, removed);
        let k = kept_orders(s, removed);
        if removed.contains(s.last().0) {
            assert(k == kd);
            assert forall|j: int|
                0 <= j < s.len() && !removed.contains((#[trigger] s[j]).0) implies exists|i: int|
                0 <= i < k.len() && k[i] == s[j] by {
                assert(j < s.len() - 1);
                assert(sd[j] == s[j]);
            }
        } else {
            assert(k == kd.push(s.last()));
            assert forall|i: int, j: int| 0 <= i < j < k.len() implies (#[trigger] k[i]).1 < (
            #[trigger] k[j]).1 by {
                if j == k.len() - 1 {
                    let jw = choose|jw: int| 0 <= jw < sd.len() && sd[jw] == kd[i];
                    assert(s[jw] == k[i]);
                    assert(s[jw].1 < s.last().1);
                }
            }
            assert forall|i: int| 0 <= i < k.len() implies !removed.contains((#[trigger] k[i]).0)
                && exists|j: int| 0 <= j < s.len() && s[j] == k[i] by {
                if i < k.len() - 1 {
                    let jw = choose|jw: int| 0 <= jw < sd.len() && sd[jw] == kd[i];
                    assert(s[jw] == k[i]);
                } else {
                    assert(s[s.len() - 1] == k[i]);
                }
            }
            assert forall|j: int|
                0 <= j < s.len() && !removed.contains((#[trigger] s[j]).0) implies exists|i: int|
                0 <= i < k.len() && k[i] == s[j] by {
                if j < s.len() - 1 {
                    assert(sd[j] == s[j]);
                    let iw = choose|iw: int| 0 <= iw < kd.len() && kd[iw] == sd[j];
                    assert(k[iw] == s[j]);
                } else {
                    assert(k[k.len() - 1] == s[j]);
                }
            }
        }
    }
}

impl Pool {
    /// The pool invariant: the window is within the capacity, the ordered
    /// set ascends strictly by rank, every ordered entry's hash is present
    /// in the content map, and one packaging returns at least one entry.
    pub open spec fn wf(&self) -> bool {
        &&& self@.window.len() <= self@.capacity
        &&& self@.package_limit >= 1
        &&& forall|i: int, j: int|
            0 <= i < j < self@.orders.len() ==> (#[trigger] self@.orders[i]).1 < (
            #[trigger] self@.orders[j]).1
        &&& forall|i: int|
            0 <= i < self@.orders.len() ==> self@.txs.contains_key((#[trigger] self@.orders[i]).0)
        &&& self.txs_wf()
    }

    /// The backing content map keeps distinct keys (an implementation
    /// detail of the store).
    pub closed spec fn txs_wf(&self) -> bool {
        self.txs.wf()
    }

    /// The stronger shape that holds while the filter never re-admits a
    /// live hash and ranks do not collide: ordered hashes are pairwise
    /// distinct and are exactly the content map's domain.
    pub open spec fn strong_wf(&self) -> bool {
        &&& self.wf()
        &&& forall|i: int, j: int|
            0 <= i < j < self@.orders.len() ==> (#[trigger] self@.orders[i]).0 != (
            #[trigger] self@.orders[j]).0
        &&& forall|k: Seq<u8>|
            #[trigger] self@.txs.contains_key(k) <==> exists|i: int|
                0 <= i < self@.orders.len() && (#[trigger] self@.orders[i]).0 == k
    }

    /// An empty FIFO pool with the given filter capacity and packaging
    /// limit.
    pub fn new(capacity: usize, package_limit: usize) -> (r: Pool)
        requires
            package_limit >= 1,
        ensures
            r@.window == Seq::<Seq<u8>>::empty(),
            r@.capacity == capacity as nat,
            r@.orders == Seq::<(Seq<u8>, u64)>::empty(),
            r@.txs == Map::<Seq<u8>, TransactionV>::empty(),
            r@.next_order == 0u64,
            r@.package_limit == package_limit as nat,
            r@.strategy == Strategy::FIFO,
            r.wf(),
            r.strong_wf(),
    {
        Pool::new_with_strategy(capacity, package_limit, Strategy::FIFO)
    }

    /// An empty pool with the given strategy.
    pub fn new_with_strategy(capacity: usize, package_limit: usize, strategy: Strategy) -> (r: Pool)
        requires
            package_limit >= 1,
        ensures
            r@.window == Seq::<Seq<u8>>::empty(),
            r@.capacity == capacity as nat,
            r@.orders == Seq::<(Seq<u8>, u64)>::empty(),
            r@.txs == Map::<Seq<u8>, TransactionV>::empty(),
            r@.next_order == 0u64,
            r@.package_limit == package_limit as nat,
            r@.strategy == strategy,
            r.wf(),
            r.strong_wf(),
    {
        let r = Pool {
            package_limit,
            capacity,
            window: Vec::new(),
            order_set: Vec::new(),
            txs: HMap::new(),
            strategy,
            order: 0,
        };
        proof {
            assert(r@.window =~= Seq::<Seq<u8>>::empty());
            assert(r@.orders =~= Seq::<(Seq<u8>, u64)>::empty());
        }
        r
    }

    /// Draws the next rank from the wrapping counter.
    fn get_order(&mut self) -> (r: u64)
        ensures
            r == old(self).order,
            final(self).order == (if old(self).order == u64::MAX {
                0u64
            } else {
                (old(self).order + 1) as u64
            }),
            final(self).window@ == old(self).window@,
            final(self).order_set@ == old(self).order_set@,
            final(self).txs == old(self).txs,
            final(self).capacity == old(self).capacity,
            final(self).package_limit == old(self).package_limit,
            final(self).strategy == old(self).strategy,
    {
        let order = self.order;
        if self.order == u64::MAX {
            self.order = 0;
        } else {
            self.order = self.order + 1;
        }
        order
    }

    /// The rank of a transaction under the `PRIORITY` strategy (an
    /// extension point; currently the counter).
    fn get_order_by_priority(&mut self, _tx: &Transaction) -> (r: u64)
        ensures
            r == old(self).order,
            final(self).order == (if old(self).order == u64::MAX {
                0u64
            } else {
                (old(self).order + 1) as u64
            }),
            final(self).window@ == old(self).window@,
            final(self).order_set@ == old(self).order_set@,
            final(self).txs == old(self).txs,
            final(self).capacity == old(self).capacity,
            final(self).package_limit == old(self).package_limit,
            final(self).strategy == old(self).strategy,
    {
        self.get_order()
    }

    /// Remembers the hash in the filter window if it is not already
    /// remembered; reports whether it was admitted.
    fn filter_check(&mut self, hash: &H256) -> (r: bool)
        requires
            old(self)@.window.len() <= old(self)@.capacity,
        ensures
            r == !old(self)@.window.contains(hash@),
            !r ==> *final(self) == *old(self),
            r ==> final(self)@.window == window_admit(
                old(self)@.window,
                hash@,
                old(self)@.capacity,
            ),
            final(self).order_set@ == old(self).order_set@,
            final(self).txs == old(self).txs,
            final(self).order == old(self).order,
            final(self).capacity == old(self).capacity,
            final(self).package_limit == old(self).package_limit,
            final(self).strategy == old(self).strategy,
            final(self)@.window.len() <= final(self)@.capacity,
    {
        let mut i: usize = 0;
        while i < self.window.len()
            invariant
                i <= self.window@.len(),
                forall|j: int| 0 <= j < i ==> self@.window[j] != hash@,
                *self == *old(self),
                self@.window.len() <= self@.capacity,
            decreases self.window@.len() - i,
        {
            if self.window[i] == *hash {
                proof {
                    assert(self@.window[i as int] == hash@);
                }
                return false;
            }
            i += 1;
        }
        proof {
            if old(self)@.window.contains(hash@) {
                let j = choose|j: int|
                    0 <= j < old(self)@.window.len() && old(self)@.window[j] == hash@;
                assert(false);
            }
        }
        let ghost before = self@.window;
        self.window.push(hash.clone());
        proof {
            assert(self@.window =~= before.push(hash@));
        }
        if self.window.len() > self.capacity {
            let ghost pushed = self@.window;
            self.window.remove(0);
            proof {
                assert(self@.window =~= pushed.drop_first());
            }
        }
        true
    }

    /// The rank of a transaction under the `VIP` strategy (an extension
    /// point; currently the counter).
    fn get_order_by_vip(&mut self, _tx: &Transaction) -> (r: u64)
        ensures
            r == old(self).order,
            final(self).order == (if old(self).order == u64::MAX {
                0u64
            } else {
                (old(self).order + 1) as u64
            }),
            final(self).window@ == old(self).window@,
            final(self).order_set@ == old(self).order_set@,
            final(self).txs == old(self).txs,
            final(self).capacity == old(self).capacity,
            final(self).package_limit == old(self).package_limit,
            final(self).strategy == old(self).strategy,
    {
        self.get_order()
    }

    /// Admits a transaction if the filter does not remember its hash:
    /// assigns a rank, inserts the pair into the ordered set (unless the
    /// rank collides after a counter wrap) and records the transaction
    /// under its hash. A remembered hash is rejected with no state change.
    #[verifier::rlimit(100)]
    pub fn enqueue(&mut self, tx: Transaction, hash: H256) -> (r: bool)
        requires
            old(self).wf(),
        ensures
            r == !old(self)@.window.contains(hash@),
            !r ==> *final(self) == *old(self),
            r ==> final(self)@.window == window_admit(
                old(self)@.window,
                hash@,
                old(self)@.capacity,
            ),
            r ==> final(self)@.txs == old(self)@.txs.insert(hash@, tx@),
            r ==> final(self)@.next_order == (if old(self)@.next_order == u64::MAX {
                0u64
            } else {
                (old(self)@.next_order + 1) as u64
            }),
            r ==> final(self)@.orders == (if (exists|i: int|
                0 <= i < old(self)@.orders.len() && (#[trigger] old(self)@.orders[i]).1 == old(
                    self,
                )@.next_order) {
                old(self)@.orders
            } else {
                insert_rank(old(self)@.orders, hash@, old(self)@.next_order)
            }),
            final(self)@.capacity == old(self)@.capacity,
            final(self)@.package_limit == old(self)@.package_limit,
            final(self)@.strategy == old(self)@.strategy,
            final(self).wf(),
            old(self).strong_wf() && (r ==> !old(self)@.txs.contains_key(hash@) && (forall|i: int|
                0 <= i < old(self)@.orders.len() ==> (#[trigger] old(self)@.orders[i]).1 != old(
                    self,
                )@.next_order)) ==> final(self).strong_wf(),
    {
        let ghost pre = *old(self);
        let is_ok = self.filter_check(&hash);
        if is_ok {
            let order = match self.strategy {
                Strategy::FIFO => self.get_order(),
                Strategy::PRIORITY => self.get_order_by_priority(&tx),
                Strategy::VIP => self.get_order_by_vip(&tx),
            };
            let ghost orders0 = self@.orders;
            proof {
                assert(orders0 =~= pre@.orders);
            }
            let mut cut = self.order_set.len();
            while cut > 0 && self.order_set[cut - 1].order > order
                invariant
                    cut <= self.order_set@.len(),
                    forall|j: int|
                        cut <= j < self@.orders.len() ==> (#[trigger] self@.orders[j]).1 > order,
                decreases cut,
            {
                proof {
                    assert(self@.orders[cut - 1].1 == self.order_set@[cut - 1].order);
                }
                cut -= 1;
            }
            let dup = cut > 0 && self.order_set[cut - 1].order == order;
            proof {
                if cut > 0 {
                    assert(self@.orders[cut - 1].1 == self.order_set@[cut - 1].order);
                }
                if dup {
                    assert(self@.orders[cut - 1].1 == order);
                } else {
                    if exists|i: int|
                        0 <= i < orders0.len() && (#[trigger] orders0[i]).1 == order {
                        let i = choose|i: int|
                            0 <= i < orders0.len() && (#[trigger] orders0[i]).1 == order;
                        assert(self@.orders[i].1 == order);
                        assert(i < cut);
                        if i < cut - 1 {
                            assert(self@.orders[i].1 < self@.orders[cut - 1].1);
                        }
                        assert(false);
                    }
                    assert(forall|j: int|
                        0 <= j < cut ==> (#[trigger] self@.orders[j]).1 < order) by {
                        assert(forall|j: int|
                            0 <= j < cut - 1 ==> (#[trigger] self@.orders[j]).1 < self@.orders[cut
                                - 1].1);
                    }
                }
            }
            if !dup {
                proof {
                    lemma_insert_rank_at(orders0, hash@, order, cut as int);
                    orders0.insert_ensures(cut as int, (hash@, order));
                }
                let ghost entries0 = self.order_set@;
                self.order_set.insert(cut, TxOrder::new(hash.clone(), order));
                proof {
                    assert(self@.orders =~= orders0.insert(cut as int, (hash@, order))) by {
                        entries0.insert_ensures(
                            cut as int,
                            TxOrder { hash: self.order_set@[cut as int].hash, order },
                        );
                        assert(forall|j: int|
                            0 <= j < self@.orders.len() ==> (#[trigger] self@.orders[j]) == (
                            self.order_set@[j].hash@, self.order_set@[j].order));
                    }
                }
            }
            let ghost orders1 = self@.orders;
            let ghost txs0 = self.txs@;
            let ghost txv = tx@;
            self.txs.insert(hash, tx);
            proof {
                assert(self@.orders =~= orders1);
                assert(self@.txs == txs0.insert(hash@, txv));
                if !dup {
                    orders0.insert_ensures(cut as int, (hash@, order));
                    assert(orders1 == orders0.insert(cut as int, (hash@, order)));
                    assert forall|i: int, j: int| 0 <= i < j < orders1.len() implies (
                    #[trigger] orders1[i]).1 < (#[trigger] orders1[j]).1 by {
                        if j < cut {
                        } else if i >= cut + 1 {
                            assert(orders1[i] == orders0[i - 1]);
                            assert(orders1[j] == orders0[j - 1]);
                        } else if i < cut && j == cut {
                        } else if i < cut && j > cut {
                            assert(orders1[j] == orders0[j - 1]);
                        } else if i == cut {
                            assert(orders1[j] == orders0[j - 1]);
                        }
                    }
                }
                assert forall|i: int| 0 <= i < orders1.len() implies self@.txs.contains_key(
                    (#[trigger] orders1[i]).0,
                ) by {
                    if dup {
                    } else {
                        orders0.insert_ensures(cut as int, (hash@, order));
                        if i < cut {
                            assert(orders1[i] == orders0[i]);
                        } else if i > cut {
                            assert(orders1[i] == orders0[i - 1]);
                        }
                    }
                }
                if pre.strong_wf() && !pre@.txs.contains_key(hash@) && (forall|i: int|
                    0 <= i < pre@.orders.len() ==> (#[trigger] pre@.orders[i]).1 != order) {
                    assert(!dup);
                    orders0.insert_ensures(cut as int, (hash@, order));
                    assert forall|i: int, j: int| 0 <= i < j < orders1.len() implies (
                    #[trigger] orders1[i]).0 != (#[trigger] orders1[j]).0 by {
                        if i != cut && j != cut {
                            let i0: int = if i < cut {
                                i
                            } else {
                                i - 1
                            };
                            let j0: int = if j < cut {
                                j
                            } else {
                                j - 1
                            };
                            assert(orders1[i] == orders0[i0]);
                            assert(orders1[j] == orders0[j0]);
                        } else if i == cut {
                            assert(orders1[j] == orders0[j - 1]);
                            assert(pre@.txs.contains_key(orders0[j - 1].0));
                        } else {
                            assert(orders1[i] == orders0[i]);
                            assert(pre@.txs.contains_key(orders0[i].0));
                        }
                    }
                    assert forall|k: Seq<u8>| #[trigger] self@.txs.contains_key(k) implies exists|
                        i: int,
                    | 0 <= i < orders1.len() && (#[trigger] orders1[i]).0 == k by {
                        if k == hash@ {
                            assert(orders1[cut as int].0 == k);
                        } else {
                            let i0 = choose|i0: int|
                                0 <= i0 < orders0.len() && (#[trigger] orders0[i0]).0 == k;
                            if i0 < cut {
                                assert(orders1[i0].0 == k);
                            } else {
                                assert(orders1[i0 + 1].0 == k);
                            }
                        }
                    }
                    assert forall|i: int| 0 <= i < orders1.len() implies self@.txs.contains_key(
                        (#[trigger] orders1[i]).0,
                    ) by {}
                }
            }
            true
        } else {
            false
        }
    }

    /// Drops every ordered entry whose hash is in the list.
    fn update_order_set(&mut self, hash_list: &[H256])
        ensures
            final(self)@.orders == kept_orders(old(self)@.orders, hash_set_of(hash_list@)),
            final(self).window@ == old(self).window@,
            final(self).txs == old(self).txs,
            final(self).order == old(self).order,
            final(self).capacity == old(self).capacity,
            final(self).package_limit == old(self).package_limit,
            final(self).strategy == old(self).strategy,
    {
        let ghost orders0 = self@.orders;
        let ghost removed = hash_set_of(hash_list@);
        let mut kept: Vec<TxOrder> = Vec::new();
        let mut i: usize = 0;
        while i < self.order_set.len()
            invariant
                i <= self.order_set@.len(),
                self.order_set@ == old(self).order_set@,
                orders0 == self@.orders,
                removed == hash_set_of(hash_list@),
                Seq::new(kept@.len(), |j: int| (kept@[j].hash@, kept@[j].order)) == kept_orders(
                    orders0.subrange(0, i as int),
                    removed,
                ),
            decreases self.order_set@.len() - i,
        {
            let ghost prefix = orders0.subrange(0, i as int);
            proof {
                assert(orders0.subrange(0, i + 1).drop_last() =~= prefix);
                assert(orders0.subrange(0, i + 1).last() == orders0[i as int]);
            }
            if !contains_hash(hash_list, &self.order_set[i].hash) {
                proof {
                    assert(orders0[i as int].0 == self.order_set@[i as int].hash@);
                    assert(!removed.contains(orders0[i as int].0));
                }
                let entry = TxOrder::new(self.order_set[i].hash.clone(), self.order_set[i].order);
                kept.push(entry);
                proof {
                    assert(Seq::new(kept@.len(), |j: int| (kept@[j].hash@, kept@[j].order))
                        =~= kept_orders(orders0.subrange(0, i + 1), removed));
                }
            } else {
                proof {
                    assert(orders0[i as int].0 == self.order_set@[i as int].hash@);
                    assert(removed.contains(orders0[i as int].0));
                    assert(Seq::new(kept@.len(), |j: int| (kept@[j].hash@, kept@[j].order))
                        =~= kept_orders(orders0.subrange(0, i + 1), removed));
                }
            }
            i += 1;
        }
        proof {
            assert(orders0.subrange(0, orders0.len() as int) =~= orders0);
        }
        self.order_set = kept;
    }

    /// Evicts the listed hashes: each is removed from the content map and
    /// every ordered entry carrying it is dropped. Used after a block
    /// holding these transactions is committed.
    pub fn update(&mut self, hash_list: &[H256])
        requires
            old(self).wf(),
        ensures
            final(self)@.txs == old(self)@.txs.remove_keys(hash_set_of(hash_list@)),
            final(self)@.orders == kept_orders(old(self)@.orders, hash_set_of(hash_list@)),
            final(self)@.window == old(self)@.window,
            final(self)@.next_order == old(self)@.next_order,
            final(self)@.capacity == old(self)@.capacity,
            final(self)@.package_limit == old(self)@.package_limit,
            final(self)@.strategy == old(self)@.strategy,
            final(self).wf(),
            old(self).strong_wf() ==> final(self).strong_wf(),
    {
        let ghost pre = *old(self);
        let ghost removed = hash_set_of(hash_list@);
        let mut i: usize = 0;
        while i < hash_list.len()
            invariant
                i <= hash_list@.len(),
                self.txs@ == pre.txs@.remove_keys(hash_set_of(hash_list@.subrange(0, i as int))),
                self.txs.wf(),
                self.window@ == pre.window@,
                self.order_set@ == pre.order_set@,
                self.order == pre.order,
                self.capacity == pre.capacity,
                self.package_limit == pre.package_limit,
                self.strategy == pre.strategy,
            decreases hash_list@.len() - i,
        {
            proof {
                let small = hash_set_of(hash_list@.subrange(0, i as int));
                let big = hash_set_of(hash_list@.subrange(0, i + 1));
                assert(forall|j: int|
                    0 <= j < i + 1 ==> (#[trigger] hash_list@.subrange(0, i + 1)[j])
                        == hash_list@[j]);
                assert(forall|j: int|
                    0 <= j < i ==> (#[trigger] hash_list@.subrange(0, i as int)[j])
                        == hash_list@[j]);
                assert(big =~= small.insert(hash_list@[i as int]@)) by {
                    assert forall|k: Seq<u8>| big.contains(k) implies small.insert(
                        hash_list@[i as int]@,
                    ).contains(k) by {
                        let j = choose|j: int|
                            0 <= j < i + 1 && (#[trigger] hash_list@.subrange(0, i + 1)[j])@ == k;
                        if j < i {
                            assert(hash_list@.subrange(0, i as int)[j]@ == k);
                        }
                    }
                    assert forall|k: Seq<u8>| small.insert(hash_list@[i as int]@).contains(
                        k,
                    ) implies big.contains(k) by {
                        if small.contains(k) {
                            let j = choose|j: int|
                                0 <= j < i && (#[trigger] hash_list@.subrange(0, i as int)[j])@
                                    == k;
                            assert(hash_list@.subrange(0, i + 1)[j]@ == k);
                        } else {
                            assert(hash_list@.subrange(0, i + 1)[i as int]@ == k);
                        }
                    }
                }
                assert(pre.txs@.remove_keys(small).remove(hash_list@[i as int]@)
                    =~= pre.txs@.remove_keys(big));
            }
            self.txs.remove(&hash_list[i]);
            i += 1;
        }
        proof {
            assert(hash_list@.subrange(0, hash_list@.len() as int) =~= hash_list@);
            assert(self.txs@ =~= pre.txs@.remove_keys(removed));
        }
        self.update_order_set(hash_list);
        proof {
            lemma_kept_orders(pre@.orders, removed);
            let k = kept_orders(pre@.orders, removed);
            assert forall|i0: int| 0 <= i0 < k.len() implies self@.txs.contains_key(
                (#[trigger] k[i0]).0,
            ) by {
                let jw = choose|jw: int| 0 <= jw < pre@.orders.len() && pre@.orders[jw] == k[i0];
                assert(pre@.txs.contains_key(k[i0].0));
                assert(!removed.contains(k[i0].0));
            }
            if pre.strong_wf() {
                assert forall|i0: int, j0: int| 0 <= i0 < j0 < k.len() implies (
                #[trigger] k[i0]).0 != (#[trigger] k[j0]).0 by {
                    let iw = choose|iw: int|
                        0 <= iw < pre@.orders.len() && pre@.orders[iw] == k[i0];
                    let jw = choose|jw: int|
                        0 <= jw < pre@.orders.len() && pre@.orders[jw] == k[j0];
                    assert(k[i0].1 != k[j0].1);
                    assert(iw != jw);
                    if iw < jw {
                    } else {
                    }
                }
                assert forall|key: Seq<u8>| #[trigger] self@.txs.contains_key(key) implies exists|
                    i0: int,
                | 0 <= i0 < k.len() && (#[trigger] k[i0]).0 == key by {
                    assert(pre@.txs.contains_key(key));
                    assert(!removed.contains(key));
                    let jw = choose|jw: int|
                        0 <= jw < pre@.orders.len() && (#[trigger] pre@.orders[jw]).0 == key;
                    let iw = choose|iw: int| 0 <= iw < k.len() && k[iw] == pre@.orders[jw];
                    assert(k[iw].0 == key);
                }
            }
        }
    }

    /// Walks the ordered set in ascending rank, returning up to
    /// `package_limit` transactions and their hashes. The pool itself is
    /// left unchanged.
    pub fn package(&mut self) -> (r: (Vec<Transaction>, Vec<H256>))
        requires
            old(self).wf(),
        ensures
            *final(self) == *old(self),
            r.0@.len() == r.1@.len(),
            r.0@.len() == (if old(self)@.package_limit <= old(self)@.orders.len() {
                old(self)@.package_limit
            } else {
                old(self)@.orders.len()
            }),
            forall|i: int| 0 <= i < r.0@.len() ==> (#[trigger] r.1@[i])@ == old(self)@.orders[i].0,
            forall|i: int|
                0 <= i < r.0@.len() ==> (#[trigger] r.0@[i])@ == old(self)@.txs[old(
                    self,
                )@.orders[i].0],
    {
        let mut tx_list: Vec<Transaction> = Vec::new();
        let mut hash_list: Vec<H256> = Vec::new();
        let mut n = self.package_limit;
        let mut i: usize = 0;
        while i < self.order_set.len() && n > 0
            invariant
                *self == *old(self),
                self.wf(),
                i <= self.order_set@.len(),
                i <= self.package_limit,
                n == self.package_limit - i,
                tx_list@.len() == i,
                hash_list@.len() == i,
                forall|j: int|
                    0 <= j < i ==> (#[trigger] hash_list@[j])@ == old(self)@.orders[j].0,
                forall|j: int|
                    0 <= j < i ==> (#[trigger] tx_list@[j])@ == old(self)@.txs[old(
                        self,
                    )@.orders[j].0],
            decreases self.order_set@.len() - i,
        {
            let hash = &self.order_set[i].hash;
            proof {
                assert(self@.orders[i as int].0 == hash@);
                assert(self@.txs.contains_key(hash@));
            }
            let t = match self.txs.get(hash) {
                Some(t) => t,
                None => vstd::pervasive::unreached(),
            };
            let tc = t.clone();
            proof {
                assert(tc@ == self@.txs[self@.orders[i as int].0]);
            }
            let ghost hl0 = hash_list@;
            let ghost tl0 = tx_list@;
            tx_list.push(tc);
            hash_list.push(hash.clone());
            proof {
                assert(forall|j: int| 0 <= j < hl0.len() ==> #[trigger] hash_list@[j] == hl0[j]);
                assert(forall|j: int| 0 <= j < tl0.len() ==> #[trigger] tx_list@[j] == tl0[j]);
                assert(hash_list@[i as int]@ == old(self)@.orders[i as int].0);
                assert(tx_list@[i as int]@ == old(self)@.txs[old(self)@.orders[i as int].0]);
            }
            n -= 1;
            i += 1;
        }
        (tx_list, hash_list)
    }

    /// The number of transactions the pool holds.
    pub fn len(&self) -> (r: usize)
        requires
            self.wf(),
        ensures
            r == self@.txs.dom().len(),
    {
        self.txs.len()
    }
}

/// Looks a hash up in a list of hashes.
fn contains_hash(list: &[H256], h: &H256) -> (r: bool)
    ensures
        r == hash_set_of(list@).contains(h@),
{
    let mut i: usize = 0;
    while i < list.len()
        invariant
            i <= list@.len(),
            forall|j: int| 0 <= j < i ==> (#[trigger] list@[j])@ != h@,
        decreases list@.len() - i,
    {
        if list[i] == *h {
            proof {
                assert(list@[i as int]@ == h@);
            }
            return true;
        }
        i += 1;
    }
    proof {
        if hash_set_of(list@).contains(h@) {
            let j = choose|j: int| 0 <= j < list@.len() && (#[trigger] list@[j])@ == h@;
            assert(false);
        }
    }
    false
}

/// The pool's counting law: ranks in the ordered set are pairwise distinct,
/// and under the strong shape (the filter has not re-admitted a live hash
/// and ranks have not collided after a counter wrap) the ordered set and
/// the content map have exactly the same cardinality.
pub proof fn lemma_pool_counts(p: &Pool)
    requires
        p.wf(),
    ensures
        forall|i: int, j: int|
            0 <= i < j < p@.orders.len() ==> (#[trigger] p@.orders[i]).1 != (
            #[trigger] p@.orders[j]).1,
        p.strong_wf() ==> p@.orders.len() == p@.txs.dom().len(),
{
    if p.strong_wf() {
        let hs = Seq::new(p@.orders.len(), |i: int| p@.orders[i].0);
        assert(hs.no_duplicates());
        hs.unique_seq_to_set();
        assert(p@.txs.dom() =~= hs.to_set()) by {
            assert forall|k: Seq<u8>| #[trigger] p@.txs.contains_key(k) implies hs.to_set()
                .contains(k) by {
                let i = choose|i: int|
                    0 <= i < p@.orders.len() && (#[trigger] p@.orders[i]).0 == k;
                assert(hs[i] == k);
                assert(hs.contains(k));
            }
            assert forall|k: Seq<u8>| hs.to_set().contains(k) implies p@.txs.contains_key(k) by {
                let i = choose|i: int| 0 <= i < hs.len() && hs[i] == k;
                assert(p@.orders[i].0 == k);
            }
        }
    }
}

} // verus!
