//! The plain filter: `M` bytes of bits and `K` positions per element.
use vstd::prelude::*;
use vstd::slice::slice_to_vec;

use crate::bits::{
    bit_at, bits_within, byte_ones, lemma_with_bits, lemma_with_bits_grows, lists,
    ones, with_bit, with_bits,
};
use crate::encoding::{bytes_of_hex, hex_decode, hex_encode, hex_of, is_hex};
use crate::hash::{blake3_derive_key_read_block, blake3_derived_block, xxh3_64_with_seed, xxh3_seeded};
use crate::iterators::{below, blake3_stream, lemma_below_bounded, Blake3XOF, WordStream};

verus! {

/// The largest byte size whose bit positions the index generators can address.
pub const MAX_FILTER_BYTES: u64 = 0x0800_0000_0000_0000;

/// The label that keys the padding stream of saturation.
pub const SATURATION_CONTEXT: &'static str = "nyberg accumulator saturation";

/// The population count that saturation does not go beyond.
pub const SATURATION_CEILING: u32 = 1019;

/// The smallest power of two that is at least `max`, searched from `p` up.
pub open spec fn pow2_at_least(max: nat, p: nat) -> nat
    decreases if p < max {
        max - p
    } else {
        0
    },
{
    if p == 0 || p >= max {
        p
    } else {
        pow2_at_least(max, 2 * p)
    }
}

/// The mask that keeps just enough low bits to address `max` positions.
pub open spec fn position_mask(max: nat) -> u64 {
    (pow2_at_least(max, 1) - 1) as u64
}

/// XXH3 of `element` under the seeds from `seed` on, each masked to `mask`.
pub open spec fn masked_stream(element: Seq<u8>, seed: u64, mask: u64) -> Seq<u64> {
    Seq::new((u64::MAX - seed) as nat, |i: int| xxh3_seeded(element, (seed + i) as u64) & mask)
}

/// The positions a filter of `m` bytes draws for `element`, unbounded in number.
pub open spec fn bloom_positions(element: Seq<u8>, m: nat) -> Seq<u64> {
    below(masked_stream(element, 0, position_mask(8 * m)), (8 * m) as u64)
}

/// At most the first `k` words of `s`.
pub open spec fn first_k(s: Seq<u64>, k: nat) -> Seq<u64> {
    if s.len() <= k {
        s
    } else {
        s.take(k as int)
    }
}

/// The `k` positions a filter of `m` bytes sets and tests for `element`.
pub open spec fn positions(element: Seq<u8>, m: nat, k: nat) -> Seq<u64> {
    first_k(bloom_positions(element, m), k)
}

/// Every position of `idx` is set in `bytes`.
pub open spec fn all_set(bytes: Seq<u8>, idx: Seq<u64>) -> bool {
    forall|j: int| 0 <= j < idx.len() ==> bit_at(bytes, #[trigger] idx[j] as int)
}

/// A byte size the filter can be built with: its bit positions fit in the
/// machine's integers.
pub open spec fn valid_size(m: nat) -> bool {
    &&& 0 < m <= MAX_FILTER_BYTES
    &&& 8 * m <= usize::MAX
}

/// What saturation leaves of `cur`: draw 32-byte candidates from the padding
/// stream keyed by `key`, from byte `position` on, and add each to the filter
/// as long as its population count stays within `ceiling`.
pub open spec fn saturation(key: Seq<u8>, cur: Seq<u8>, position: u64, k: nat, ceiling: nat) -> Seq<u8>
    decreases u64::MAX - position,
{
    if position > u64::MAX - 32 {
        cur
    } else {
        let candidate = blake3_derived_block(SATURATION_CONTEXT@, key, position);
        let next = with_bits(cur, positions(candidate, cur.len(), k));
        if ones(next) > ceiling {
            cur
        } else {
            saturation(key, next, (position + 32) as u64, k, ceiling)
        }
    }
}

proof fn lemma_positions_bounded(element: Seq<u8>, m: nat, k: nat)
    requires
        valid_size(m),
    ensures
        forall|j: int| 0 <= j < positions(element, m, k).len() ==> (#[trigger] positions(element, m, k)[j]) < 8 * m,
{
    let all = bloom_positions(element, m);
    lemma_below_bounded(masked_stream(element, 0, position_mask(8 * m)), (8 * m) as u64);
    assert forall|j: int| 0 <= j < positions(element, m, k).len() implies (#[trigger] positions(element, m, k)[j]) < 8 * m by {
        assert(positions(element, m, k)[j] == all[j]);
    }
}

/// Indices for a filter of `M` bytes: XXH3 under seeds 0, 1, 2, ... taken
/// modulo the number of bits, which favours low positions.
pub struct BloomIndicesXXH3<const M: usize> {
    element: Vec<u8>,
    seed: u64,
}

impl<const M: usize> BloomIndicesXXH3<M> {
    /// The indices of `element`, from the first.
    pub fn from(element: &[u8]) -> (r: Self)
        requires
            valid_size(M as nat),
        ensures
            r.well_formed(),
            r.rest() == Seq::new(
                u64::MAX as nat,
                |i: int| (xxh3_seeded(element@, i as u64) % ((8 * M) as u64)) as u64,
            ),
    {
        let r = BloomIndicesXXH3 { element: slice_to_vec(element), seed: 0 };
        assert(r.rest() =~= Seq::new(
            u64::MAX as nat,
            |i: int| (xxh3_seeded(element@, i as u64) % ((8 * M) as u64)) as u64,
        ));
        r
    }
}

impl<const M: usize> WordStream for BloomIndicesXXH3<M> {
    closed spec fn well_formed(&self) -> bool {
        valid_size(M as nat)
    }

    closed spec fn rest(&self) -> Seq<u64> {
        Seq::new(
            (u64::MAX - self.seed) as nat,
            |i: int| (xxh3_seeded(self.element@, (self.seed + i) as u64) % ((8 * M) as u64)) as u64,
        )
    }

    fn next(&mut self) -> (r: Option<u64>) {
        if self.seed == u64::MAX {
            return None;
        }
        let bits = (M as u64) * 8;
        let hash = xxh3_64_with_seed(self.element.as_slice(), self.seed);
        self.seed = self.seed + 1;
        assert(self.rest() =~= old(self).rest().drop_first());
        Some(hash % bits)
    }
}

/// Indices for a filter of `M` bytes: the BLAKE3 output of the element, eight
/// bytes at a time, taken modulo the number of bits.
pub struct BloomIndicesBlake3<const M: usize> {
    words: Blake3XOF,
}

/// Each word of `words` taken modulo `bits`.
pub open spec fn reduced(words: Seq<u64>, bits: nat) -> Seq<u64> {
    Seq::new(words.len(), |i: int| (words[i] % (bits as u64)) as u64)
}

impl<const M: usize> BloomIndicesBlake3<M> {
    /// The indices of `element`, from the first.
    pub fn from(element: &[u8]) -> (r: Self)
        requires
            valid_size(M as nat),
        ensures
            r.well_formed(),
            r.rest() == reduced(blake3_stream(element@, 0), 8 * M as nat),
    {
        BloomIndicesBlake3 { words: Blake3XOF::from(element) }
    }
}

impl<const M: usize> WordStream for BloomIndicesBlake3<M> {
    closed spec fn well_formed(&self) -> bool {
        &&& valid_size(M as nat)
        &&& self.words.well_formed()
    }

    closed spec fn rest(&self) -> Seq<u64> {
        reduced(self.words.rest(), 8 * M as nat)
    }

    fn next(&mut self) -> (r: Option<u64>) {
        let bits = (M as u64) * 8;
        match self.words.next() {
            None => None,
            Some(word) => {
                assert(self.rest() =~= old(self).rest().drop_first());
                Some(word % bits)
            },
        }
    }
}

/// Indices for a filter of `M` bytes without modulo bias: XXH3 under seeds
/// 0, 1, 2, ..., masked to the smallest power of two that covers the bits,
/// with the values out of range dropped.
pub struct BloomIndicesXXH3RejectionSampling<const M: usize> {
    element: Vec<u8>,
    bitmask: u64,
    seed: u64,
}

impl<const M: usize> BloomIndicesXXH3RejectionSampling<M> {
    /// The indices of `element`, from the first.
    pub fn from(element: &[u8]) -> (r: Self)
        requires
            valid_size(M as nat),
        ensures
            r.well_formed(),
            r.rest() == bloom_positions(element@, M as nat),
    {
        let max = (M as u64) * 8;
        let mut p: u64 = 1;
        while p < max
            invariant
                1 <= p <= 2 * max,
                max == 8 * M,
                valid_size(M as nat),
                pow2_at_least(max as nat, p as nat) == pow2_at_least(max as nat, 1),
            decreases if p < max {
                max - p
            } else {
                0
            },
        {
            p = p * 2;
        }
        BloomIndicesXXH3RejectionSampling { element: slice_to_vec(element), bitmask: p - 1, seed: 0 }
    }
}

impl<const M: usize> WordStream for BloomIndicesXXH3RejectionSampling<M> {
    closed spec fn well_formed(&self) -> bool {
        &&& valid_size(M as nat)
        &&& self.bitmask == position_mask(8 * M as nat)
    }

    closed spec fn rest(&self) -> Seq<u64> {
        below(masked_stream(self.element@, self.seed, self.bitmask), (8 * M) as u64)
    }

    fn next(&mut self) -> (r: Option<u64>) {
        let max = (M as u64) * 8;
        loop
            invariant
                self.well_formed(),
                max == 8 * M,
                self.rest() == old(self).rest(),
            decreases u64::MAX - self.seed,
        {
            if self.seed == u64::MAX {
                assert(masked_stream(self.element@, self.seed, self.bitmask).len() == 0);
                return None;
            }
            let ghost src = masked_stream(self.element@, self.seed, self.bitmask);
            let index = xxh3_64_with_seed(self.element.as_slice(), self.seed) & self.bitmask;
            self.seed = self.seed + 1;
            assert(masked_stream(self.element@, self.seed, self.bitmask) =~= src.drop_first());
            if index < max {
                assert(self.rest() =~= old(self).rest().drop_first());
                return Some(index);
            }
        }
    }
}

/// An approximate-membership filter of `M` bytes that sets `K` bits per element.
#[derive(Debug)]
pub struct Bloom<const M: usize, const K: usize> {
    pub bytes: [u8; M],
}

fn byte_count(b: u8) -> (r: u32)
    ensures
        r == byte_ones(b),
{
    (b & 1u8) as u32 + ((b >> 1u8) & 1u8) as u32 + ((b >> 2u8) & 1u8) as u32 + ((b >> 3u8) & 1u8) as u32
        + ((b >> 4u8) & 1u8) as u32 + ((b >> 5u8) & 1u8) as u32 + ((b >> 6u8) & 1u8) as u32 + ((b >> 7u8)
        & 1u8) as u32
}

impl<const M: usize, const K: usize> Bloom<M, K> {
    /// An empty filter.
    pub fn new() -> (r: Self)
        ensures
            r.bytes@ == Seq::new(M as nat, |i: int| 0u8),
            ones(r.bytes@) == 0,
    {
        let r = Bloom { bytes: [0u8; M] };
        proof {
            assert(r.bytes@ =~= Seq::new(M as nat, |i: int| 0u8));
            lemma_ones_zero(r.bytes@);
        }
        r
    }

    /// Sets the `K` positions of `element`.
    pub fn add(&mut self, element: &[u8])
        requires
            valid_size(M as nat),
        ensures
            final(self).bytes@ == with_bits(old(self).bytes@, positions(element@, M as nat, K as nat)),
    {
        let ghost all = bloom_positions(element@, M as nat);
        proof {
            lemma_positions_bounded(element@, M as nat, all.len());
            assert(positions(element@, M as nat, all.len()) == all);
        }
        let mut indices = BloomIndicesXXH3RejectionSampling::<M>::from(element);
        let mut taken: usize = 0;
        while taken < K
            invariant
                indices.well_formed(),
                valid_size(M as nat),
                all == bloom_positions(element@, M as nat),
                forall|j: int| 0 <= j < all.len() ==> (#[trigger] all[j]) < 8 * M,
                taken <= K,
                taken + indices.rest().len() == all.len(),
                indices.rest() == all.skip(taken as int),
                self.bytes@ == with_bits(old(self).bytes@, all.take(taken as int)),
            ensures
                taken == K || taken == all.len(),
                self.bytes@ == with_bits(old(self).bytes@, all.take(taken as int)),
            decreases K - taken,
        {
            match indices.next() {
                None => {
                    break;
                },
                Some(index) => {
                    assert(index == all[taken as int]);
                    self.set_bit(index as usize);
                    assert(all.take(taken + 1).drop_last() =~= all.take(taken as int));
                    taken = taken + 1;
                    assert(indices.rest() =~= all.skip(taken as int));
                },
            }
        }
        proof {
            if all.len() <= K {
                assert(all.take(taken as int) =~= all);
            }
        }
    }

    /// Whether the `K` positions of `element` are all set.
    pub fn has(&self, element: &[u8]) -> (r: bool)
        requires
            valid_size(M as nat),
        ensures
            r == all_set(self.bytes@, positions(element@, M as nat, K as nat)),
    {
        let ghost all = bloom_positions(element@, M as nat);
        let ghost pos = positions(element@, M as nat, K as nat);
        proof {
            lemma_positions_bounded(element@, M as nat, all.len());
            assert(positions(element@, M as nat, all.len()) == all);
        }
        let mut indices = BloomIndicesXXH3RejectionSampling::<M>::from(element);
        let mut taken: usize = 0;
        while taken < K
            invariant
                indices.well_formed(),
                valid_size(M as nat),
                all == bloom_positions(element@, M as nat),
                pos == positions(element@, M as nat, K as nat),
                forall|j: int| 0 <= j < all.len() ==> (#[trigger] all[j]) < 8 * M,
                taken <= K,
                taken + indices.rest().len() == all.len(),
                indices.rest() == all.skip(taken as int),
                forall|j: int| 0 <= j < taken ==> bit_at(self.bytes@, #[trigger] all[j] as int),
            ensures
                taken == K || taken == all.len(),
                forall|j: int| 0 <= j < taken ==> bit_at(self.bytes@, #[trigger] all[j] as int),
            decreases K - taken,
        {
            match indices.next() {
                None => {
                    break;
                },
                Some(index) => {
                    assert(index == all[taken as int]);
                    if !self.test_bit(index as usize) {
                        assert(pos[taken as int] == all[taken as int]);
                        return false;
                    }
                    taken = taken + 1;
                    assert(indices.rest() =~= all.skip(taken as int));
                },
            }
        }
        assert(pos.len() <= taken);
        assert forall|j: int| 0 <= j < pos.len() implies bit_at(self.bytes@, #[trigger] pos[j] as int) by {
            assert(pos[j] == all[j]);
        }
        true
    }

    /// The number of set bits.
    pub fn count_ones(&self) -> (r: u32)
        requires
            8 * M <= u32::MAX,
        ensures
            r == ones(self.bytes@),
    {
        let mut count: u32 = 0;
        let mut i: usize = 0;
        while i < M
            invariant
                8 * M <= u32::MAX,
                i <= M,
                count == ones(self.bytes@.take(i as int)),
                count <= 8 * i,
            decreases M - i,
        {
            let b = self.bytes[i];
            proof {
                lemma_byte_ones_max(b);
                assert(self.bytes@.take(i + 1).drop_last() =~= self.bytes@.take(i as int));
            }
            count = count + byte_count(b);
            i = i + 1;
        }
        assert(self.bytes@.take(M as int) =~= self.bytes@);
        count
    }

    /// Pads the filter toward `SATURATION_CEILING` set bits.
    pub fn saturate(&mut self)
        requires
            valid_size(M as nat),
            8 * M <= u32::MAX,
        ensures
            final(self).bytes@ == saturation(
                old(self).bytes@,
                old(self).bytes@,
                0,
                K as nat,
                SATURATION_CEILING as nat,
            ),
            ones(final(self).bytes@) <= SATURATION_CEILING || final(self).bytes@ == old(self).bytes@,
            ones(final(self).bytes@) >= ones(old(self).bytes@),
            bits_within(old(self).bytes@, final(self).bytes@),
    {
        self.saturate_to(SATURATION_CEILING);
    }

    /// Adds candidates from a padding stream keyed by the current contents,
    /// keeping each only while the population count stays within `ceiling`.
    pub fn saturate_to(&mut self, ceiling: u32)
        requires
            valid_size(M as nat),
            8 * M <= u32::MAX,
        ensures
            final(self).bytes@ == saturation(old(self).bytes@, old(self).bytes@, 0, K as nat, ceiling as nat),
            ones(final(self).bytes@) <= ceiling || final(self).bytes@ == old(self).bytes@,
            ones(final(self).bytes@) >= ones(old(self).bytes@),
            bits_within(old(self).bytes@, final(self).bytes@),
    {
        let key: [u8; M] = self.bytes;
        let mut position: u64 = 0;
        loop
            invariant
                valid_size(M as nat),
                8 * M <= u32::MAX,
                key@ == old(self).bytes@,
                saturation(key@, self.bytes@, position, K as nat, ceiling as nat) == saturation(
                    key@,
                    key@,
                    0,
                    K as nat,
                    ceiling as nat,
                ),
                ones(self.bytes@) <= ceiling || self.bytes@ == key@,
                ones(self.bytes@) >= ones(key@),
                bits_within(key@, self.bytes@),
            decreases u64::MAX - position,
        {
            if position > u64::MAX - 32 {
                return;
            }
            let buffer = blake3_derive_key_read_block(SATURATION_CONTEXT, key.as_slice(), position);
            let mut cloned = Bloom::<M, K> { bytes: self.bytes };
            cloned.add(buffer.as_slice());
            proof {
                lemma_positions_bounded(buffer@, M as nat, K as nat);
                lemma_with_bits_grows(self.bytes@, positions(buffer@, M as nat, K as nat));
            }
            if cloned.count_ones() > ceiling {
                return;
            }
            self.bytes = cloned.bytes;
            position = position + 32;
        }
    }

    /// The bytes as lowercase hexadecimal text.
    pub fn to_hex(&self) -> (r: String)
        ensures
            r@ == hex_of(self.bytes@),
    {
        hex_encode(self.bytes.as_slice())
    }

    /// A filter whose bytes `text` spells in hexadecimal, if it spells
    /// exactly `M` bytes.
    pub fn from_hex(text: &str) -> (r: Option<Self>)
        ensures
            r is Some <==> is_hex(text@) && text@.len() == 2 * M,
            r matches Some(b) ==> b.bytes@ == bytes_of_hex(text@),
    {
        match hex_decode(text) {
            None => None,
            Some(v) => {
                if v.len() != M {
                    return None;
                }
                let mut bytes = [0u8; M];
                let mut i: usize = 0;
                while i < M
                    invariant
                        v.len() == M,
                        i <= M,
                        forall|j: int| 0 <= j < i ==> bytes@[j] == v@[j],
                    decreases M - i,
                {
                    bytes[i] = v[i];
                    i = i + 1;
                }
                assert(bytes@ =~= v@);
                Some(Bloom { bytes })
            },
        }
    }

    /// Sets bit `index`.
    fn set_bit(&mut self, index: usize)
        requires
            index < 8 * M,
        ensures
            final(self).bytes@ == with_bit(old(self).bytes@, index as int),
    {
        let byte_index = index / 8;
        let bit_index = index % 8;
        self.bytes[byte_index] = self.bytes[byte_index] | (1u8 << (bit_index as u8));
        assert(self.bytes@ =~= with_bit(old(self).bytes@, index as int));
    }

    /// Whether bit `index` is set.
    fn test_bit(&self, index: usize) -> (r: bool)
        requires
            index < 8 * M,
        ensures
            r == bit_at(self.bytes@, index as int),
    {
        let byte_index = index / 8;
        let bit_index = index % 8;
        let b = self.bytes[byte_index];
        let bi = bit_index as u8;
        assert((b & (1u8 << bi)) != 0 <==> (b >> bi) & 1u8 == 1u8) by (bit_vector)
            requires
                bi < 8,
        ;
        (b & (1u8 << bi)) != 0
    }
}

/// Without folding there are no false negatives: once an element has been
/// added, every one of its positions is set, so the filter holds it.
pub proof fn lemma_added_is_held(bytes: Seq<u8>, element: Seq<u8>, m: nat, k: nat)
    requires
        valid_size(m),
        bytes.len() == m,
    ensures
        all_set(with_bits(bytes, positions(element, m, k)), positions(element, m, k)),
{
    let pos = positions(element, m, k);
    lemma_positions_bounded(element, m, k);
    assert forall|j: int| 0 <= j < pos.len() implies bit_at(with_bits(bytes, pos), #[trigger] pos[j] as int) by {
        lemma_with_bits(bytes, pos, pos[j] as int);
        assert(lists(pos, pos[j] as int));
    }
}

proof fn lemma_byte_ones_max(b: u8)
    ensures
        byte_ones(b) <= 8,
{
    assert((b & 1u8) + ((b >> 1u8) & 1u8) + ((b >> 2u8) & 1u8) + ((b >> 3u8) & 1u8) + ((b >> 4u8) & 1u8)
        + ((b >> 5u8) & 1u8) + ((b >> 6u8) & 1u8) + ((b >> 7u8) & 1u8) <= 8) by (bit_vector);
}

proof fn lemma_ones_zero(bytes: Seq<u8>)
    requires
        forall|i: int| 0 <= i < bytes.len() ==> bytes[i] == 0u8,
    ensures
        ones(bytes) == 0,
    decreases bytes.len(),
{
    if bytes.len() > 0 {
        lemma_ones_zero(bytes.drop_last());
        let z = bytes.last();
        assert((z & 1u8) + ((z >> 1u8) & 1u8) + ((z >> 2u8) & 1u8) + ((z >> 3u8) & 1u8) + ((z >> 4u8)
            & 1u8) + ((z >> 5u8) & 1u8) + ((z >> 6u8) & 1u8) + ((z >> 7u8) & 1u8) == 0) by (bit_vector)
            requires
                z == 0u8,
        ;
    }
}

} // verus!
