//! Fixed-size bit vectors, stored least significant bit first in each byte.
use vstd::prelude::*;

verus! {

/// Bit `i` of a byte sequence: bit `i % 8` of byte `i / 8`.
pub open spec fn bit_at(bytes: Seq<u8>, i: int) -> bool {
    (bytes[i / 8] >> ((i % 8) as u8)) & 1u8 == 1u8
}

/// The bits of a byte sequence, eight per byte.
pub open spec fn bits_of(bytes: Seq<u8>) -> Seq<bool> {
    Seq::new(8 * bytes.len(), |i: int| bit_at(bytes, i))
}

proof fn lemma_or_bit(b: u8, k: u8, j: u8)
    requires
        k < 8,
        j < 8,
    ensures
        ((b | (1u8 << k)) >> j) & 1u8 == (if j == k { 1u8 } else { (b >> j) & 1u8 }),
{
    assert(((b | (1u8 << k)) >> j) & 1u8 == (if j == k { 1u8 } else { (b >> j) & 1u8 }))
        by (bit_vector)
        requires
            k < 8,
            j < 8,
    ;
}

/// Setting bit `i` of a byte sequence sets that bit and keeps every other.
pub proof fn lemma_set_bit(bytes: Seq<u8>, i: int)
    requires
        0 <= i < 8 * bytes.len(),
    ensures
        bits_of(bytes.update(i / 8, bytes[i / 8] | (1u8 << ((i % 8) as u8))))
            == bits_of(bytes).update(i, true),
{
    let k = (i % 8) as u8;
    let nb = bytes.update(i / 8, bytes[i / 8] | (1u8 << k));
    assert forall|j: int| 0 <= j < 8 * bytes.len() implies #[trigger] bit_at(nb, j) == (if j == i {
        true
    } else {
        bit_at(bytes, j)
    }) by {
        if j / 8 == i / 8 {
            lemma_or_bit(bytes[i / 8], k, (j % 8) as u8);
        }
    }
    assert(bits_of(nb) =~= bits_of(bytes).update(i, true));
}

/// Reads bit `index` of `bytes`.
pub fn get_bit(bytes: &[u8], index: usize) -> (r: bool)
    requires
        index < 8 * bytes@.len(),
    ensures
        r == bit_at(bytes@, index as int),
{
    let byte = index / 8;
    let bit = (index % 8) as u8;
    (bytes[byte] >> bit) & 1u8 == 1u8
}

/// Sets bit `index` of `bytes`, keeping every other bit.
pub fn set_bit(bytes: &mut Vec<u8>, index: usize)
    requires
        index < 8 * old(bytes)@.len(),
    ensures
        final(bytes)@ == old(bytes)@.update(
            index as int / 8,
            old(bytes)@[index as int / 8] | (1u8 << ((index as int % 8) as u8)),
        ),
        bits_of(final(bytes)@) == bits_of(old(bytes)@).update(index as int, true),
{
    let byte = index / 8;
    let bit = (index % 8) as u8;
    let v = bytes[byte] | (1u8 << bit);
    bytes.set(byte, v);
    proof {
        lemma_set_bit(old(bytes)@, index as int);
    }
}

/// A bit vector of `8 * N` bits held in `N` bytes.
pub struct Bitfield<const N: usize> {
    storage: [u8; N],
}

impl<const N: usize> View for Bitfield<N> {
    type V = Seq<bool>;

    open spec fn view(&self) -> Seq<bool> {
        bits_of(self.storage())
    }
}

impl<const N: usize> Bitfield<N> {
    /// The bytes that hold the bits.
    pub closed spec fn storage(&self) -> Seq<u8> {
        self.storage@
    }

    /// A bit vector with every bit clear.
    pub fn new() -> (r: Self)
        ensures
            r.storage() == Seq::new(N as nat, |i: int| 0u8),
            r@ == Seq::new(8 * N as nat, |i: int| false),
    {
        let r = Self { storage: [0u8; N] };
        assert(r.storage@ =~= Seq::new(N as nat, |i: int| 0u8));
        assert forall|i: int| 0 <= i < 8 * N implies !bit_at(r.storage@, i) by {
            let k = (i % 8) as u8;
            assert((0u8 >> k) & 1u8 == 0u8) by (bit_vector);
        }
        assert(r@ =~= Seq::new(8 * N as nat, |i: int| false));
        r
    }

    /// A bit vector held in the given bytes.
    pub fn new_from_bytes(storage: [u8; N]) -> (r: Self)
        ensures
            r.storage() == storage@,
            r@ == bits_of(storage@),
    {
        Self { storage }
    }

    /// The bytes that hold the bits.
    pub fn bytes(&self) -> (r: &[u8])
        ensures
            r@ == self.storage(),
    {
        self.storage.as_slice()
    }

    /// Sets bit `index`, keeping every other bit.
    pub fn set(&mut self, index: usize)
        requires
            index < 8 * N,
        ensures
            final(self)@ == old(self)@.update(index as int, true),
            final(self).storage() == old(self).storage().update(
                index as int / 8,
                old(self).storage()[index as int / 8] | (1u8 << ((index as int % 8) as u8)),
            ),
    {
        let byte = index / 8;
        let bit = (index % 8) as u8;
        let v = self.storage[byte] | (1u8 << bit);
        self.storage[byte] = v;
        proof {
            lemma_set_bit(old(self).storage@, index as int);
            assert(self.storage@ =~= old(self).storage@.update(byte as int, v));
        }
    }

    /// Whether bit `index` is set.
    pub fn get(&self, index: usize) -> (r: bool)
        requires
            index < 8 * N,
        ensures
            r == self@[index as int],
    {
        get_bit(self.storage.as_slice(), index)
    }
}

} // verus!
