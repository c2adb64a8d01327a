use crate::digest::{xxh3_64, xxh3_of};
use vstd::prelude::*;

verus! {

// A fixed-rate Bloom filter over a finite key set: a byte-packed bit array
// sized at ten bits per key, probed by seven derived hash positions. One
// xxHash3 digest of the key is combined with each probe seed by a wrapping
// affine step, so no false negatives are possible and the false-positive
// rate stays near one percent at the chosen density.

/// The number of probe positions per key.
pub const NUM_HASH_FUNCTIONS: usize = 7;

/// The number of filter bits allocated per key.
pub const BITS_PER_KEY: usize = 10;

pub struct BloomFilter {
    pub bits: Vec<u8>,
}

/// Whether bit `idx` of the packed array is set. Out-of-range positions
/// count as unset, so every query on an empty array is negative.
pub open spec fn bit_is_set(bits: Seq<u8>, idx: nat) -> bool {
    idx < 8 * bits.len() && (bits[(idx / 8) as int] >> ((idx % 8) as u8)) & 1 == 1
}

/// The probe hash for `key` with probe seed `seed`: the key's digest plus
/// the seed, then a wrapping multiply by a 64-bit odd constant.
pub open spec fn bloom_hash(key: Seq<u8>, seed: u64) -> u64 {
    vstd::wrapping::u64_specs::wrapping_mul(
        vstd::wrapping::u64_specs::wrapping_add(xxh3_of(key), seed),
        0x9e3779b97f4a7c15,
    )
}

/// The bit position probed for `key` with probe seed `seed` in a filter of
/// `nbits` bits.
pub open spec fn bloom_bit(key: Seq<u8>, seed: u64, nbits: nat) -> nat
    recommends
        nbits > 0,
{
    (bloom_hash(key, seed) as nat) % nbits
}

/// All seven probe bits for `key` are set. False on an empty bit array.
pub open spec fn bloom_covers(bits: Seq<u8>, key: Seq<u8>) -> bool {
    forall|seed: u64|
        0 <= seed < 7 ==> bit_is_set(bits, #[trigger] bloom_bit(key, seed, 8 * bits.len()))
}

impl BloomFilter {
    /// The bit count `8 * bits.len()` stays representable.
    pub open spec fn wf(self) -> bool {
        self.bits@.len() <= usize::MAX / 8
    }

    /// An all-zero filter sized for `num_keys` keys: ten bits each, rounded
    /// up to whole bytes, zero bytes for zero keys.
    pub fn with_bits_per_key(num_keys: usize) -> (r: Self)
        requires
            num_keys * 10 + 7 <= usize::MAX,
        ensures
            r.wf(),
            r.bits@.len() == (num_keys * 10 + 7) / 8,
            forall|i: int| 0 <= i < r.bits@.len() ==> r.bits@[i] == 0,
    {
        let nbytes = (num_keys * BITS_PER_KEY + 7) / 8;
        let mut bits: Vec<u8> = Vec::new();
        let mut i: usize = 0;
        while i < nbytes
            invariant
                0 <= i <= nbytes,
                bits@.len() == i,
                forall|j: int| 0 <= j < i ==> bits@[j] == 0,
            decreases nbytes - i,
        {
            bits.push(0);
            i = i + 1;
        }
        proof {
            assert(nbytes <= usize::MAX / 8) by (nonlinear_arith)
                requires
                    nbytes == (num_keys * 10 + 7) / 8,
                    num_keys * 10 + 7 <= usize::MAX,
            ;
        }
        BloomFilter { bits }
    }

    pub fn new(num_keys: usize) -> (r: Self)
        requires
            num_keys * 10 + 7 <= usize::MAX,
        ensures
            r.wf(),
            r.bits@.len() == (num_keys * 10 + 7) / 8,
            forall|i: int| 0 <= i < r.bits@.len() ==> r.bits@[i] == 0,
    {
        Self::with_bits_per_key(num_keys)
    }

    /// The probe hash, one xxHash3 digest combined with the probe seed.
    fn hash(&self, key: &Vec<u8>, seed: usize) -> (r: u64)
        requires
            seed < 7,
        ensures
            r == bloom_hash(key@, seed as u64),
    {
        let h = xxh3_64(key);
        h.wrapping_add(seed as u64).wrapping_mul(0x9e3779b97f4a7c15)
    }

    /// Sets the seven probe bits for `key`; the filter must have been
    /// sized for at least one key. Every bit already set stays set, so no
    /// key the filter covered is ever lost.
    #[verifier::loop_isolation(false)]
    pub fn insert(&mut self, key: &Vec<u8>)
        requires
            old(self).wf(),
            old(self).bits@.len() > 0,
        ensures
            final(self).wf(),
            final(self).bits@.len() == old(self).bits@.len(),
            bloom_covers(final(self).bits@, key@),
            forall|k2: Seq<u8>|
                bloom_covers(old(self).bits@, k2) ==> bloom_covers(final(self).bits@, k2),
    {
        let nbytes = self.bits.len();
        let num_bits = nbytes * 8;
        let ghost nbits = 8 * self.bits@.len();
        let mut i: usize = 0;
        while i < NUM_HASH_FUNCTIONS
            invariant
                0 <= i <= 7,
                self.bits@.len() == old(self).bits@.len(),
                forall|idx: nat| bit_is_set(old(self).bits@, idx) ==> bit_is_set(self.bits@, idx),
                forall|seed: u64|
                    0 <= seed < i ==> bit_is_set(
                        self.bits@,
                        #[trigger] bloom_bit(key@, seed, nbits),
                    ),
            decreases 7 - i,
        {
            let h = self.hash(key, i);
            let bit_index = (h % (num_bits as u64)) as usize;
            let byte_index = bit_index / 8;
            let bit_offset = (bit_index % 8) as u8;
            let ghost prev = self.bits@;
            let b = self.bits[byte_index];
            let nb = b | (1u8 << bit_offset);
            self.bits.set(byte_index, nb);
            proof {
                assert(bit_index as nat == bloom_bit(key@, i as u64, nbits));
                assert forall|idx: nat| bit_is_set(prev, idx) implies bit_is_set(
                    self.bits@,
                    idx,
                ) by {
                    if (idx / 8) as int == byte_index as int {
                        let off = (idx % 8) as u8;
                        assert((nb >> off) & 1 == 1 || (b >> off) & 1 == (nb >> off) & 1)
                            by (bit_vector)
                            requires
                                nb == b | (1u8 << bit_offset),
                                off < 8,
                                bit_offset < 8,
                        ;
                    }
                }
                assert(bit_is_set(self.bits@, bit_index as nat)) by {
                    assert((nb >> bit_offset) & 1 == 1) by (bit_vector)
                        requires
                            nb == b | (1u8 << bit_offset),
                            bit_offset < 8,
                    ;
                }
                assert forall|seed: u64| 0 <= seed < i + 1 implies bit_is_set(
                    self.bits@,
                    #[trigger] bloom_bit(key@, seed, nbits),
                ) by {
                    if seed < i {
                        assert(bit_is_set(prev, bloom_bit(key@, seed, nbits)));
                    }
                }
            }
            i = i + 1;
        }
    }

    /// True exactly when all seven probe bits for `key` are set; in
    /// particular, always false on an empty bit array and always true for
    /// every key that was inserted.
    #[verifier::loop_isolation(false)]
    pub fn may_contain(&self, key: &Vec<u8>) -> (r: bool)
        requires
            self.wf(),
        ensures
            r == bloom_covers(self.bits@, key@),
    {
        let nbytes = self.bits.len();
        if nbytes == 0 {
            proof {
                assert(!bit_is_set(self.bits@, bloom_bit(key@, 0, 0)));
            }
            return false;
        }
        let num_bits = nbytes * 8;
        let ghost nbits = 8 * self.bits@.len();
        let mut i: usize = 0;
        while i < NUM_HASH_FUNCTIONS
            invariant
                0 <= i <= 7,
                forall|seed: u64|
                    0 <= seed < i ==> bit_is_set(
                        self.bits@,
                        #[trigger] bloom_bit(key@, seed, nbits),
                    ),
            decreases 7 - i,
        {
            let h = self.hash(key, i);
            let bit_index = (h % (num_bits as u64)) as usize;
            let byte_index = bit_index / 8;
            let bit_offset = (bit_index % 8) as u8;
            let b = self.bits[byte_index];
            if (b >> bit_offset) & 1 == 0 {
                proof {
                    assert(bit_index as nat == bloom_bit(key@, i as u64, nbits));
                    assert(!bit_is_set(self.bits@, bit_index as nat));
                }
                return false;
            }
            proof {
                assert(bit_index as nat == bloom_bit(key@, i as u64, nbits));
                assert((b >> bit_offset) & 1 == 1) by (bit_vector)
                    requires
                        (b >> bit_offset) & 1 != 0,
                ;
                assert(bit_is_set(self.bits@, bit_index as nat));
            }
            i = i + 1;
        }
        true
    }
}

} // verus!
