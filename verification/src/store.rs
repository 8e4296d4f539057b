//! Small in-memory maps backed by vectors of entries with distinct keys:
//! one keyed by 32-byte hashes, one keyed by unsigned 64-bit integers.
//! Their ghost views are `Map`s over the keys' ghost values.

use vstd::prelude::*;
use crate::hashes::H256;

verus! {

/// The map view of a sequence of hash-keyed entries, later entries winning.
pub open spec fn hmap_of<V: View>(s: Seq<(H256, V)>) -> Map<Seq<u8>, V::V>
    decreases s.len(),
{
    if s.len() == 0 {
        Map::empty()
    } else {
        hmap_of(s.drop_last()).insert(s.last().0@, s.last().1@)
    }
}

/// Whether the keys of a sequence of entries are pairwise distinct.
pub open spec fn hkeys_distinct<V>(s: Seq<(H256, V)>) -> bool {
    forall|i: int, j: int| 0 <= i < j < s.len() ==> (#[trigger] s[i]).0@ != (#[trigger] s[j]).0@
}

proof fn lemma_hmap_contains<V: View>(s: Seq<(H256, V)>, k: Seq<u8>)
    ensures
        hmap_of(s).contains_key(k) <==> exists|i: int| 0 <= i < s.len() && (#[trigger] s[i]).0@
            == k,
    decreases s.len(),
{
    if s.len() > 0 {
        lemma_hmap_contains(s.drop_last(), k);
        if s.last().0@ == k {
            assert(s[s.len() - 1].0@ == k);
        } else if hmap_of(s).contains_key(k) {
            let i = choose|i: int| 0 <= i < s.drop_last().len() && (#[trigger] s.drop_last()[i]).0@
                == k;
            assert(s[i].0@ == k);
        } else {
            assert(forall|i: int|
                0 <= i < s.len() - 1 ==> (#[trigger] s[i]).0@ == s.drop_last()[i].0@);
        }
    }
}

proof fn lemma_hmap_get<V: View>(s: Seq<(H256, V)>, i: int)
    requires
        hkeys_distinct(s),
        0 <= i < s.len(),
    ensures
        hmap_of(s).contains_key(s[i].0@),
        hmap_of(s)[s[i].0@] == s[i].1@,
    decreases s.len(),
{
    if i == s.len() - 1 {
    } else {
        assert(hkeys_distinct(s.drop_last())) by {
            assert(forall|a: int, b: int|
                0 <= a < b < s.len() - 1 ==> (#[trigger] s.drop_last()[a]).0@ == s[a].0@ && (
                #[trigger] s.drop_last()[b]).0@ == s[b].0@);
        }
        lemma_hmap_get(s.drop_last(), i);
        assert(s.drop_last()[i] == s[i]);
        assert(s[i].0@ != s.last().0@);
    }
}

proof fn lemma_hmap_remove<V: View>(s: Seq<(H256, V)>, i: int)
    requires
        hkeys_distinct(s),
        0 <= i < s.len(),
    ensures
        hmap_of(s.remove(i)) == hmap_of(s).remove(s[i].0@),
        hkeys_distinct(s.remove(i)),
    decreases s.len(),
{
    assert(forall|a: int, b: int|
        0 <= a < b < s.remove(i).len() ==> (#[trigger] s.remove(i)[a]).0@ != (#[trigger] s.remove(
            i,
        )[b]).0@) by {
        assert(forall|a: int|
            0 <= a < s.remove(i).len() ==> (#[trigger] s.remove(i)[a]) == (if a < i {
                s[a]
            } else {
                s[a + 1]
            }));
    }
    if i == s.len() - 1 {
        assert(s.remove(i) =~= s.drop_last());
        lemma_hmap_contains(s.drop_last(), s[i].0@);
        assert(!hmap_of(s.drop_last()).contains_key(s[i].0@));
        assert(hmap_of(s.drop_last()).remove(s[i].0@) =~= hmap_of(s.drop_last()));
        assert(hmap_of(s).remove(s[i].0@) =~= hmap_of(s.drop_last()));
    } else {
        assert(hkeys_distinct(s.drop_last())) by {
            assert(forall|a: int|
                0 <= a < s.len() - 1 ==> (#[trigger] s.drop_last()[a]).0@ == s[a].0@);
        }
        lemma_hmap_remove(s.drop_last(), i);
        assert(s.remove(i).drop_last() =~= s.drop_last().remove(i));
        assert(s.remove(i).last() == s.last());
        assert(hmap_of(s.remove(i)) == hmap_of(s.drop_last().remove(i)).insert(
            s.last().0@,
            s.last().1@,
        ));
        assert(s.drop_last()[i] == s[i]);
        assert(s[i].0@ != s.last().0@);
        assert(hmap_of(s.drop_last()).remove(s[i].0@).insert(s.last().0@, s.last().1@)
            =~= hmap_of(s.drop_last()).insert(s.last().0@, s.last().1@).remove(s[i].0@));
    }
}

proof fn lemma_hmap_len<V: View>(s: Seq<(H256, V)>)
    requires
        hkeys_distinct(s),
    ensures
        hmap_of(s).dom().finite(),
        hmap_of(s).dom().len() == s.len(),
    decreases s.len(),
{
    if s.len() > 0 {
        assert(hkeys_distinct(s.drop_last())) by {
            assert(forall|a: int|
                0 <= a < s.len() - 1 ==> (#[trigger] s.drop_last()[a]).0@ == s[a].0@);
        }
        lemma_hmap_len(s.drop_last());
        lemma_hmap_contains(s.drop_last(), s.last().0@);
        assert(forall|i: int|
            0 <= i < s.drop_last().len() ==> (#[trigger] s.drop_last()[i]).0@ == s[i].0@);
        assert(!hmap_of(s.drop_last()).contains_key(s.last().0@));
        assert(hmap_of(s).dom() =~= hmap_of(s.drop_last()).dom().insert(s.last().0@));
    }
}

/// A map from 32-byte hashes to values, backed by a vector of entries with
/// pairwise-distinct keys.
pub struct HMap<V> {
    entries: Vec<(H256, V)>,
}

impl<V: View> View for HMap<V> {
    type V = Map<Seq<u8>, V::V>;

    closed spec fn view(&self) -> Map<Seq<u8>, V::V> {
        hmap_of(self.entries@)
    }
}

impl<V: View> HMap<V> {
    /// The backing entries have pairwise-distinct keys.
    pub closed spec fn wf(&self) -> bool {
        hkeys_distinct(self.entries@)
    }

    /// An empty map.
    pub fn new() -> (r: HMap<V>)
        ensures
            r@ == Map::<Seq<u8>, V::V>::empty(),
            r.wf(),
    {
        HMap { entries: Vec::new() }
    }

    /// Whether the key is present.
    pub fn contains(&self, k: &H256) -> (r: bool)
        ensures
            r == self@.contains_key(k@),
    {
        let mut i: usize = 0;
        while i < self.entries.len()
            invariant
                i <= self.entries@.len(),
                forall|j: int| 0 <= j < i ==> (#[trigger] self.entries@[j]).0@ != k@,
            decreases self.entries@.len() - i,
        {
            if self.entries[i].0 == *k {
                proof {
                    lemma_hmap_contains(self.entries@, k@);
                }
                return true;
            }
            i += 1;
        }
        proof {
            lemma_hmap_contains(self.entries@, k@);
        }
        false
    }

    /// Looks a key up.
    pub fn get(&self, k: &H256) -> (r: Option<&V>)
        requires
            self.wf(),
        ensures
            r matches Some(v) ==> self@.contains_key(k@) && v@ == self@[k@],
            r is None ==> !self@.contains_key(k@),
    {
        let mut i: usize = 0;
        while i < self.entries.len()
            invariant
                i <= self.entries@.len(),
                self.wf(),
                forall|j: int| 0 <= j < i ==> (#[trigger] self.entries@[j]).0@ != k@,
            decreases self.entries@.len() - i,
        {
            if self.entries[i].0 == *k {
                proof {
                    lemma_hmap_get(self.entries@, i as int);
                }
                return Some(&self.entries[i].1);
            }
            i += 1;
        }
        proof {
            lemma_hmap_contains(self.entries@, k@);
        }
        None
    }

    /// Removes a key if present.
    pub fn remove(&mut self, k: &H256)
        requires
            old(self).wf(),
        ensures
            final(self)@ == old(self)@.remove(k@),
            final(self).wf(),
            !final(self)@.contains_key(k@),
    {
        let mut i: usize = 0;
        while i < self.entries.len()
            invariant
                i <= self.entries@.len(),
                self.wf(),
                self.entries@ == old(self).entries@,
                forall|j: int| 0 <= j < i ==> (#[trigger] self.entries@[j]).0@ != k@,
            decreases self.entries@.len() - i,
        {
            if self.entries[i].0 == *k {
                proof {
                    lemma_hmap_remove(self.entries@, i as int);
                    lemma_hmap_contains(self.entries@.remove(i as int), k@);
                    assert(forall|j: int|
                        0 <= j < self.entries@.remove(i as int).len() ==> (
                        #[trigger] self.entries@.remove(i as int)[j]) == (if j < i {
                            self.entries@[j]
                        } else {
                            self.entries@[j + 1]
                        }));
                }
                self.entries.remove(i);
                return ;
            }
            i += 1;
        }
        proof {
            lemma_hmap_contains(self.entries@, k@);
            assert(self@.remove(k@) =~= self@);
        }
    }

    /// Inserts a key, replacing any previous value under it.
    pub fn insert(&mut self, k: H256, v: V)
        requires
            old(self).wf(),
        ensures
            final(self)@ == old(self)@.insert(k@, v@),
            final(self).wf(),
    {
        let ghost kk = k@;
        let ghost vv = v@;
        self.remove(&k);
        let ghost mid = self.entries@;
        proof {
            lemma_hmap_contains(mid, kk);
        }
        self.entries.push((k, v));
        proof {
            assert(self.entries@.drop_last() =~= mid);
            assert(hmap_of(self.entries@) == hmap_of(mid).insert(kk, vv));
            assert(hmap_of(mid).insert(kk, vv) =~= old(self)@.insert(kk, vv));
            assert(forall|j: int| 0 <= j < mid.len() ==> (#[trigger] self.entries@[j]) == mid[j]);
            assert(self.entries@.last().0@ == kk);
        }
    }

    /// The number of entries.
    pub fn len(&self) -> (r: usize)
        requires
            self.wf(),
        ensures
            r == self@.dom().len(),
    {
        proof {
            lemma_hmap_len(self.entries@);
        }
        self.entries.len()
    }
}

/// The map view of a sequence of integer-keyed entries, later entries
/// winning.
pub open spec fn umap_of<V: View>(s: Seq<(u64, V)>) -> Map<u64, V::V>
    decreases s.len(),
{
    if s.len() == 0 {
        Map::empty()
    } else {
        umap_of(s.drop_last()).insert(s.last().0, s.last().1@)
    }
}

/// Whether the keys of a sequence of entries are pairwise distinct.
pub open spec fn ukeys_distinct<V>(s: Seq<(u64, V)>) -> bool {
    forall|i: int, j: int| 0 <= i < j < s.len() ==> (#[trigger] s[i]).0 != (#[trigger] s[j]).0
}

proof fn lemma_umap_contains<V: View>(s: Seq<(u64, V)>, k: u64)
    ensures
        umap_of(s).contains_key(k) <==> exists|i: int| 0 <= i < s.len() && (#[trigger] s[i]).0
            == k,
    decreases s.len(),
{
    if s.len() > 0 {
        lemma_umap_contains(s.drop_last(), k);
        if s.last().0 == k {
            assert(s[s.len() - 1].0 == k);
        } else if umap_of(s).contains_key(k) {
            let i = choose|i: int| 0 <= i < s.drop_last().len() && (#[trigger] s.drop_last()[i]).0
                == k;
            assert(s[i].0 == k);
        } else {
            assert(forall|i: int|
                0 <= i < s.len() - 1 ==> (#[trigger] s[i]).0 == s.drop_last()[i].0);
        }
    }
}

proof fn lemma_umap_get<V: View>(s: Seq<(u64, V)>, i: int)
    requires
        ukeys_distinct(s),
        0 <= i < s.len(),
    ensures
        umap_of(s).contains_key(s[i].0),
        umap_of(s)[s[i].0] == s[i].1@,
    decreases s.len(),
{
    if i == s.len() - 1 {
    } else {
        assert(ukeys_distinct(s.drop_last())) by {
            assert(forall|a: int, b: int|
                0 <= a < b < s.len() - 1 ==> (#[trigger] s.drop_last()[a]).0 == s[a].0 && (
                #[trigger] s.drop_last()[b]).0 == s[b].0);
        }
        lemma_umap_get(s.drop_last(), i);
        assert(s.drop_last()[i] == s[i]);
        assert(s[i].0 != s.last().0);
    }
}

proof fn lemma_umap_remove<V: View>(s: Seq<(u64, V)>, i: int)
    requires
        ukeys_distinct(s),
        0 <= i < s.len(),
    ensures
        umap_of(s.remove(i)) == umap_of(s).remove(s[i].0),
        ukeys_distinct(s.remove(i)),
    decreases s.len(),
{
    assert(forall|a: int, b: int|
        0 <= a < b < s.remove(i).len() ==> (#[trigger] s.remove(i)[a]).0 != (#[trigger] s.remove(
            i,
        )[b]).0) by {
        assert(forall|a: int|
            0 <= a < s.remove(i).len() ==> (#[trigger] s.remove(i)[a]) == (if a < i {
                s[a]
            } else {
                s[a + 1]
            }));
    }
    if i == s.len() - 1 {
        assert(s.remove(i) =~= s.drop_last());
        lemma_umap_contains(s.drop_last(), s[i].0);
        assert(!umap_of(s.drop_last()).contains_key(s[i].0));
        assert(umap_of(s.drop_last()).remove(s[i].0) =~= umap_of(s.drop_last()));
        assert(umap_of(s).remove(s[i].0) =~= umap_of(s.drop_last()));
    } else {
        assert(ukeys_distinct(s.drop_last())) by {
            assert(forall|a: int|
                0 <= a < s.len() - 1 ==> (#[trigger] s.drop_last()[a]).0 == s[a].0);
        }
        lemma_umap_remove(s.drop_last(), i);
        assert(s.remove(i).drop_last() =~= s.drop_last().remove(i));
        assert(s.remove(i).last() == s.last());
        assert(umap_of(s.remove(i)) == umap_of(s.drop_last().remove(i)).insert(
            s.last().0,
            s.last().1@,
        ));
        assert(s.drop_last()[i] == s[i]);
        assert(s[i].0 != s.last().0);
        assert(umap_of(s.drop_last()).remove(s[i].0).insert(s.last().0, s.last().1@)
            =~= umap_of(s.drop_last()).insert(s.last().0, s.last().1@).remove(s[i].0));
    }
}

/// A map from unsigned 64-bit keys (heights, timestamps) to values, backed
/// by a vector of entries with pairwise-distinct keys.
pub struct UMap<V> {
    entries: Vec<(u64, V)>,
}

impl<V: View> View for UMap<V> {
    type V = Map<u64, V::V>;

    closed spec fn view(&self) -> Map<u64, V::V> {
        umap_of(self.entries@)
    }
}

impl<V: View> UMap<V> {
    /// The backing entries have pairwise-distinct keys.
    pub closed spec fn wf(&self) -> bool {
        ukeys_distinct(self.entries@)
    }

    /// An empty map.
    pub fn new() -> (r: UMap<V>)
        ensures
            r@ == Map::<u64, V::V>::empty(),
            r.wf(),
    {
        UMap { entries: Vec::new() }
    }

    /// Looks a key up.
    pub fn get(&self, k: u64) -> (r: Option<&V>)
        requires
            self.wf(),
        ensures
            r matches Some(v) ==> self@.contains_key(k) && v@ == self@[k],
            r is None ==> !self@.contains_key(k),
    {
        let mut i: usize = 0;
        while i < self.entries.len()
            invariant
                i <= self.entries@.len(),
                self.wf(),
                forall|j: int| 0 <= j < i ==> (#[trigger] self.entries@[j]).0 != k,
            decreases self.entries@.len() - i,
        {
            if self.entries[i].0 == k {
                proof {
                    lemma_umap_get(self.entries@, i as int);
                }
                return Some(&self.entries[i].1);
            }
            i += 1;
        }
        proof {
            lemma_umap_contains(self.entries@, k);
        }
        None
    }

    /// Removes a key if present.
    pub fn remove(&mut self, k: u64)
        requires
            old(self).wf(),
        ensures
            final(self)@ == old(self)@.remove(k),
            final(self).wf(),
            !final(self)@.contains_key(k),
    {
        let mut i: usize = 0;
        while i < self.entries.len()
            invariant
                i <= self.entries@.len(),
                self.wf(),
                self.entries@ == old(self).entries@,
                forall|j: int| 0 <= j < i ==> (#[trigger] self.entries@[j]).0 != k,
            decreases self.entries@.len() - i,
        {
            if self.entries[i].0 == k {
                proof {
                    lemma_umap_remove(self.entries@, i as int);
                    lemma_umap_contains(self.entries@.remove(i as int), k);
                    assert(forall|j: int|
                        0 <= j < self.entries@.remove(i as int).len() ==> (
                        #[trigger] self.entries@.remove(i as int)[j]) == (if j < i {
                            self.entries@[j]
                        } else {
                            self.entries@[j + 1]
                        }));
                }
                self.entries.remove(i);
                return ;
            }
            i += 1;
        }
        proof {
            lemma_umap_contains(self.entries@, k);
            assert(self@.remove(k) =~= self@);
        }
    }

    /// Inserts a key, replacing any previous value under it.
    pub fn insert(&mut self, k: u64, v: V)
        requires
            old(self).wf(),
        ensures
            final(self)@ == old(self)@.insert(k, v@),
            final(self).wf(),
    {
        let ghost vv = v@;
        self.remove(k);
        let ghost mid = self.entries@;
        proof {
            lemma_umap_contains(mid, k);
        }
        self.entries.push((k, v));
        proof {
            assert(self.entries@.drop_last() =~= mid);
            assert(umap_of(self.entries@) == umap_of(mid).insert(k, vv));
            assert(umap_of(mid).insert(k, vv) =~= old(self)@.insert(k, vv));
            assert(forall|j: int| 0 <= j < mid.len() ==> (#[trigger] self.entries@[j]) == mid[j]);
            assert(self.entries@.last().0 == k);
        }
    }

}

} // verus!
