//! Word streams: deterministic hash streams, a bit-group re-slicer, and
//! samplers that reject out-of-range or repeated words.
use vstd::prelude::*;
use vstd::slice::slice_to_vec;

use crate::hash::{blake3_xof_read_u64, blake3_xof_u64, xxh3_64_with_seed, xxh3_seeded};

verus! {

/// How one draw moves a stream: the first word leaves it, or, when no word is
/// left, nothing comes and nothing changes.
pub open spec fn draws(before: Seq<u64>, r: Option<u64>, after: Seq<u64>) -> bool {
    if before.len() == 0 {
        r is None && after == before
    } else {
        r == Some(before[0]) && after == before.drop_first()
    }
}

/// A finite, deterministic producer of 64-bit words.
pub trait WordStream: Sized {
    /// The state holds together.
    spec fn well_formed(&self) -> bool;

    /// The words still to come, in order.
    spec fn rest(&self) -> Seq<u64>;

    /// Draws the next word.
    fn next(&mut self) -> (r: Option<u64>)
        requires
            old(self).well_formed(),
        ensures
            final(self).well_formed(),
            draws(old(self).rest(), r, final(self).rest()),
    ;
}

/// XXH3 run over one element with the seeds 0, 1, 2, ... in turn.
pub struct XXH3XOF {
    element: Vec<u8>,
    seed: u64,
}

impl XXH3XOF {
    /// The element this stream hashes.
    pub closed spec fn element(&self) -> Seq<u8> {
        self.element@
    }

    /// The stream of `element`, from its first word.
    pub fn from(element: &[u8]) -> (r: Self)
        ensures
            r.element() == element@,
            r.rest() == xxh3_stream(element@, 0),
    {
        XXH3XOF { element: slice_to_vec(element), seed: 0 }
    }
}

/// The words of the XXH3 stream of `element` from seed `seed` on; the seed
/// `u64::MAX` is never used.
pub open spec fn xxh3_stream(element: Seq<u8>, seed: u64) -> Seq<u64> {
    Seq::new((u64::MAX - seed) as nat, |i: int| xxh3_seeded(element, (seed + i) as u64))
}

impl WordStream for XXH3XOF {
    open spec fn well_formed(&self) -> bool {
        true
    }

    closed spec fn rest(&self) -> Seq<u64> {
        xxh3_stream(self.element@, self.seed)
    }

    fn next(&mut self) -> (r: Option<u64>) {
        if self.seed == u64::MAX {
            return None;
        }
        let hash = xxh3_64_with_seed(self.element.as_slice(), self.seed);
        self.seed = self.seed + 1;
        assert(self.rest() =~= old(self).rest().drop_first());
        Some(hash)
    }
}

/// The BLAKE3 extendable output of one element, eight bytes at a time.
pub struct Blake3XOF {
    element: Vec<u8>,
    position: u64,
}

/// The words of the BLAKE3 output of `element` from byte `position` on.
pub open spec fn blake3_stream(element: Seq<u8>, position: u64) -> Seq<u64> {
    Seq::new(
        ((u64::MAX - position) / 8) as nat,
        |i: int| blake3_xof_u64(element, (position + 8 * i) as u64),
    )
}

impl Blake3XOF {
    /// The stream of `element`, from its first word.
    pub fn from(element: &[u8]) -> (r: Self)
        ensures
            r.rest() == blake3_stream(element@, 0),
    {
        Blake3XOF { element: slice_to_vec(element), position: 0 }
    }
}

impl WordStream for Blake3XOF {
    open spec fn well_formed(&self) -> bool {
        true
    }

    closed spec fn rest(&self) -> Seq<u64> {
        blake3_stream(self.element@, self.position)
    }

    fn next(&mut self) -> (r: Option<u64>) {
        if self.position > u64::MAX - 8 {
            return None;
        }
        let word = blake3_xof_read_u64(self.element.as_slice(), self.position);
        self.position = self.position + 8;
        assert(self.rest() =~= old(self).rest().drop_first());
        Some(word)
    }
}

/// Bits `[used, used + bits)` of `word`, lowest first.
pub open spec fn bit_group(word: u64, used: nat, bits: nat) -> u64 {
    (word >> (used as u64)) & (((1u64 << (bits as u64)) - 1) as u64)
}

/// What re-slicing `src` into `bits`-bit groups yields, given the word in hand
/// and how many of its bits are spent: a group that does not fit in what is
/// left of the word comes from the low bits of a fresh word.
pub open spec fn bit_groups(last: Option<u64>, used: nat, bits: nat, src: Seq<u64>) -> Seq<u64>
    decreases src.len(), 64 - used,
{
    if bits == 0 || bits >= 64 {
        Seq::empty()
    } else if used + bits > 64 || last is None {
        if src.len() == 0 {
            Seq::empty()
        } else {
            seq![bit_group(src[0], 0, bits)] + bit_groups(Some(src[0]), bits, bits, src.drop_first())
        }
    } else {
        seq![bit_group(last->0, used, bits)] + bit_groups(last, used + bits, bits, src)
    }
}

/// Hands out the words of `iter` `bits` bits at a time.
pub struct YieldBits<I> {
    iter: I,
    bits: usize,
    last: Option<u64>,
    bits_used: usize,
}

impl<I: WordStream> YieldBits<I> {
    /// Re-slices `iter` into groups of `bits_at_a_time` bits.
    pub fn yield_bits(iter: I, bits_at_a_time: usize) -> (r: Self)
        requires
            iter.well_formed(),
            0 < bits_at_a_time < 64,
        ensures
            r.well_formed(),
            r.rest() == bit_groups(None, 0, bits_at_a_time as nat, iter.rest()),
    {
        YieldBits { iter, bits: bits_at_a_time, last: None, bits_used: 0 }
    }
}

impl<I: WordStream> WordStream for YieldBits<I> {
    closed spec fn well_formed(&self) -> bool {
        &&& self.iter.well_formed()
        &&& 0 < self.bits < 64
        &&& self.bits_used <= 64
        &&& self.last is None ==> self.bits_used == 0
    }

    closed spec fn rest(&self) -> Seq<u64> {
        bit_groups(self.last, self.bits_used as nat, self.bits as nat, self.iter.rest())
    }

    fn next(&mut self) -> (r: Option<u64>) {
        let bits = self.bits as u64;
        assert(1u64 << bits >= 1) by (bit_vector)
            requires
                bits < 64,
        ;
        let mask: u64 = (1u64 << bits) - 1;
        if self.bits_used + self.bits > 64 || self.last.is_none() {
            match self.iter.next() {
                None => None,
                Some(word) => {
                    let result = (word >> 0u64) & mask;
                    self.last = Some(word);
                    self.bits_used = self.bits;
                    assert(self.rest() =~= old(self).rest().drop_first());
                    Some(result)
                },
            }
        } else {
            let word = self.last.unwrap();
            let result = (word >> (self.bits_used as u64)) & mask;
            self.bits_used = self.bits_used + self.bits;
            assert(self.rest() =~= old(self).rest().drop_first());
            Some(result)
        }
    }
}

/// The words of `src` that are below `max`, in order.
pub open spec fn below(src: Seq<u64>, max: u64) -> Seq<u64>
    decreases src.len(),
{
    if src.len() == 0 {
        Seq::empty()
    } else if src[0] < max {
        seq![src[0]] + below(src.drop_first(), max)
    } else {
        below(src.drop_first(), max)
    }
}

/// The words of `below(src, max)` are all below `max`.
pub proof fn lemma_below_bounded(src: Seq<u64>, max: u64)
    ensures
        forall|i: int| 0 <= i < below(src, max).len() ==> #[trigger] below(src, max)[i] < max,
    decreases src.len(),
{
    if src.len() > 0 {
        lemma_below_bounded(src.drop_first(), max);
        let tail = below(src.drop_first(), max);
        if src[0] < max {
            assert forall|i: int| 0 <= i < below(src, max).len() implies #[trigger] below(src, max)[i]
                < max by {
                if i > 0 {
                    assert(below(src, max)[i] == tail[i - 1]);
                }
            }
        }
    }
}

/// Passes on only the words of `iter` below a bound, redrawing the others.
pub struct RejectionSampling<I> {
    iter: I,
    max: u64,
}

impl<I: WordStream> RejectionSampling<I> {
    /// Keeps the words of `iter` below `max`.
    pub fn accept_smaller(iter: I, max: u64) -> (r: Self)
        requires
            iter.well_formed(),
        ensures
            r.well_formed(),
            r.rest() == below(iter.rest(), max),
    {
        RejectionSampling { iter, max }
    }
}

impl<I: WordStream> WordStream for RejectionSampling<I> {
    closed spec fn well_formed(&self) -> bool {
        self.iter.well_formed()
    }

    closed spec fn rest(&self) -> Seq<u64> {
        below(self.iter.rest(), self.max)
    }

    fn next(&mut self) -> (r: Option<u64>) {
        loop
            invariant
                self.iter.well_formed(),
                self.max == old(self).max,
                below(self.iter.rest(), self.max) == below(old(self).iter.rest(), old(self).max),
            decreases self.iter.rest().len(),
        {
            let ghost before = self.iter.rest();
            match self.iter.next() {
                None => {
                    return None;
                },
                Some(val) => {
                    if val < self.max {
                        assert(before == seq![val] + self.iter.rest());
                        assert(old(self).rest() == seq![val] + self.rest());
                        assert(self.rest() =~= old(self).rest().drop_first());
                        return Some(val);
                    }
                },
            }
        }
    }
}

/// What `src` yields once every word already in `used`, or already yielded,
/// is skipped.
pub open spec fn unseen(src: Seq<u64>, used: Seq<u64>) -> Seq<u64>
    decreases src.len(),
{
    if src.len() == 0 {
        Seq::empty()
    } else if used.contains(src[0]) {
        unseen(src.drop_first(), used)
    } else {
        seq![src[0]] + unseen(src.drop_first(), used.push(src[0]))
    }
}

/// Passes on each word of `iter` at most once.
pub struct DistinctSampling<I> {
    iter: I,
    used_values: Vec<u64>,
}

impl<I: WordStream> DistinctSampling<I> {
    /// Skips the repeats in `iter`.
    pub fn distinct(iter: I) -> (r: Self)
        requires
            iter.well_formed(),
        ensures
            r.well_formed(),
            r.rest() == unseen(iter.rest(), Seq::empty()),
            r.used() == Seq::<u64>::empty(),
    {
        DistinctSampling { iter, used_values: Vec::new() }
    }

    /// The words handed out so far, in order.
    pub closed spec fn used(&self) -> Seq<u64> {
        self.used_values@
    }

    /// Draws the next word not handed out before; it is then recorded.
    pub fn next_distinct(&mut self) -> (r: Option<u64>)
        requires
            old(self).well_formed(),
        ensures
            final(self).well_formed(),
            draws(old(self).rest(), r, final(self).rest()),
            r is None ==> final(self).used() == old(self).used(),
            r matches Some(v) ==> !old(self).used().contains(v) && final(self).used() == old(
                self,
            ).used().push(v),
    {
        loop
            invariant
                self.iter.well_formed(),
                self.used_values@ == old(self).used_values@,
                unseen(self.iter.rest(), self.used_values@) == unseen(
                    old(self).iter.rest(),
                    old(self).used_values@,
                ),
            decreases self.iter.rest().len(),
        {
            let ghost before = self.iter.rest();
            match self.iter.next() {
                None => {
                    return None;
                },
                Some(val) => {
                    if !contains(&self.used_values, val) {
                        self.used_values.push(val);
                        assert(before == seq![val] + self.iter.rest());
                        assert(self.rest() =~= old(self).rest().drop_first());
                        return Some(val);
                    }
                },
            }
        }
    }
}

fn contains(values: &Vec<u64>, v: u64) -> (r: bool)
    ensures
        r == values@.contains(v),
{
    let mut i: usize = 0;
    while i < values.len()
        invariant
            i <= values.len(),
            forall|j: int| 0 <= j < i ==> values@[j] != v,
        decreases values.len() - i,
    {
        if values[i] == v {
            return true;
        }
        i = i + 1;
    }
    false
}

impl<I: WordStream> WordStream for DistinctSampling<I> {
    closed spec fn well_formed(&self) -> bool {
        self.iter.well_formed()
    }

    closed spec fn rest(&self) -> Seq<u64> {
        unseen(self.iter.rest(), self.used_values@)
    }

    fn next(&mut self) -> (r: Option<u64>) {
        self.next_distinct()
    }
}

/// Distinct sampling never repeats itself: no word comes twice, and none that
/// was handed out before.
pub proof fn lemma_unseen_distinct(src: Seq<u64>, used: Seq<u64>)
    ensures
        forall|i: int, j: int|
            0 <= i < j < unseen(src, used).len() ==> unseen(src, used)[i] != unseen(src, used)[j],
        forall|i: int| 0 <= i < unseen(src, used).len() ==> !used.contains(#[trigger] unseen(src, used)[i]),
    decreases src.len(),
{
    if src.len() > 0 {
        if used.contains(src[0]) {
            lemma_unseen_distinct(src.drop_first(), used);
            assert(unseen(src, used) == unseen(src.drop_first(), used));
        } else {
            let u2 = used.push(src[0]);
            let tail = unseen(src.drop_first(), u2);
            lemma_unseen_distinct(src.drop_first(), u2);
            let out = unseen(src, used);
            assert(out == seq![src[0]] + tail);
            assert(u2.contains(src[0])) by {
                assert(u2[used.len() as int] == src[0]);
            }
            assert forall|i: int| 0 <= i < out.len() implies !used.contains(#[trigger] out[i]) by {
                if i == 0 {
                    assert(out[0] == src[0]);
                } else {
                    assert(out[i] == tail[i - 1]);
                    if used.contains(out[i]) {
                        let k = choose|k: int| 0 <= k < used.len() && used[k] == out[i];
                        assert(u2[k] == used[k]);
                    }
                }
            }
            assert forall|i: int, j: int| 0 <= i < j < out.len() implies out[i] != out[j] by {
                assert(out[j] == tail[j - 1]);
                assert(!u2.contains(tail[j - 1]));
                if i > 0 {
                    assert(out[i] == tail[i - 1]);
                } else {
                    assert(out[0] == src[0]);
                }
            }
        }
    }
}

} // verus!
