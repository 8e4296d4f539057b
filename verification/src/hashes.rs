//! Fixed-width byte strings: 32-byte digests, 64-byte public keys and 65-byte
//! signatures, each a vector of bytes whose length is fixed by the type.

use vstd::prelude::*;

verus! {

/// A byte string of exactly `N` bytes.
#[derive(Debug)]
pub struct FixedBytes<const N: usize> {
    bytes: Vec<u8>,
}

/// A 32-byte digest (the output of the chain's hash function).
pub type H256 = FixedBytes<32>;

/// A 64-byte public key.
pub type H512 = FixedBytes<64>;

/// A 65-byte recoverable signature.
pub type H520 = FixedBytes<65>;

impl<const N: usize> View for FixedBytes<N> {
    type V = Seq<u8>;

    closed spec fn view(&self) -> Seq<u8> {
        self.bytes@
    }
}

impl<const N: usize> FixedBytes<N> {
    /// The length invariant: the value holds exactly `N` bytes.
    pub open spec fn wf(&self) -> bool {
        self@.len() == N
    }

    /// Wraps a byte vector, or reports that its length is not `N`.
    pub fn from_vec(bytes: Vec<u8>) -> (r: Option<FixedBytes<N>>)
        ensures
            r matches Some(f) ==> f@ == bytes@ && f.wf(),
            r is None <==> bytes@.len() != N,
    {
        if bytes.len() == N {
            Some(FixedBytes { bytes })
        } else {
            None
        }
    }

    /// The all-zero value of this width.
    pub fn zero() -> (r: FixedBytes<N>)
        ensures
            r@ == Seq::<u8>::new(N as nat, |i: int| 0u8),
            r.wf(),
    {
        let bytes: Vec<u8> = vec![0u8; N];
        FixedBytes { bytes }
    }

    /// Whether every byte is zero.
    pub fn is_zero(&self) -> (r: bool)
        ensures
            r == (self@ == Seq::<u8>::new(self@.len(), |i: int| 0u8)),
    {
        let mut i: usize = 0;
        while i < self.bytes.len()
            invariant
                i <= self@.len(),
                forall|j: int| 0 <= j < i ==> self@[j] == 0u8,
            decreases self@.len() - i,
        {
            if self.bytes[i] != 0u8 {
                proof {
                    assert(self@[i as int] != 0u8);
                    assert(self@ != Seq::<u8>::new(self@.len(), |k: int| 0u8));
                }
                return false;
            }
            i += 1;
        }
        proof {
            assert(self@ =~= Seq::<u8>::new(self@.len(), |k: int| 0u8));
        }
        true
    }

    /// Borrows the underlying bytes.
    pub fn as_bytes(&self) -> (r: &Vec<u8>)
        ensures
            r@ == self@,
    {
        &self.bytes
    }
}

impl<const N: usize> PartialEq for FixedBytes<N> {
    fn eq(&self, other: &Self) -> (r: bool) {
        let r = self.bytes == other.bytes;
        proof {
            if r {
                assert(self.bytes@ =~= other.bytes@);
            } else {
                if self.bytes@ == other.bytes@ {
                    assert(forall|i: int|
                        0 <= i < self.bytes@.len() ==> self.bytes@[i] == other.bytes@[i]);
                    assert(false);
                }
            }
        }
        r
    }
}

impl<const N: usize> Eq for FixedBytes<N> {

}

impl<const N: usize> vstd::std_specs::cmp::PartialEqSpecImpl for FixedBytes<N> {
    open spec fn obeys_eq_spec() -> bool {
        true
    }

    open spec fn eq_spec(&self, other: &Self) -> bool {
        self@ == other@
    }
}

impl<const N: usize> Clone for FixedBytes<N> {
    fn clone(&self) -> (r: Self)
        ensures
            r@ == self@,
    {
        let bytes = self.bytes.clone();
        proof {
            assert(bytes@ =~= self.bytes@);
        }
        FixedBytes { bytes }
    }
}

} // verus!
