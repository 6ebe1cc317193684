//! The folded filter: positions are drawn in a virtual space `2^F` times
//! larger than the stored bits and folded down, colliding positions
//! cancelling in pairs.
use vstd::arithmetic::div_mod::{lemma_div_pos_is_pos, lemma_multiply_divide_lt};
use vstd::arithmetic::power2::{lemma2_to64, lemma_pow2_pos, pow2};
use vstd::bits::{lemma_u64_shl_is_mul, lemma_usize_shr_is_div};
use vstd::prelude::*;

use crate::bits::{bit_at, lemma_with_bit, with_bit};
use crate::hash::{xxh3_64_with_seed, xxh3_seeded};

verus! {

/// The number of positions of the virtual space of a folded filter of `s`
/// bytes folded `f` times.
pub open spec fn virtual_bits(s: nat, f: nat) -> nat {
    8 * s * pow2(f)
}

/// The sizes a folded filter can be built with: its virtual positions fit in
/// the machine's integers.
pub open spec fn valid_fold(s: nat, f: nat) -> bool {
    &&& 0 < s
    &&& f < usize::BITS
    &&& virtual_bits(s, f) <= usize::MAX
    &&& virtual_bits(s, f) <= u64::MAX
}

/// The distinct wide positions of `element` under the seeds `0..k`, in the
/// order of their first draw: a seed that repeats a position adds nothing.
pub open spec fn wide_positions(element: Seq<u8>, k: nat, width: nat) -> Seq<usize>
    decreases k,
{
    if k == 0 {
        Seq::empty()
    } else {
        let prev = wide_positions(element, (k - 1) as nat, width);
        let p = (xxh3_seeded(element, (k - 1) as u64) % (width as u64)) as usize;
        if prev.contains(p) {
            prev
        } else {
            prev.push(p)
        }
    }
}

/// `set` with `x` added if absent and removed if present.
pub open spec fn toggled(set: Set<int>, x: int) -> Set<int> {
    if set.contains(x) {
        set.remove(x)
    } else {
        set.insert(x)
    }
}

/// The positions left after folding each of `wide` down by `times` bits,
/// toggling one position per wide position.
pub open spec fn fold(wide: Seq<usize>, times: nat) -> Set<int>
    decreases wide.len(),
{
    if wide.len() == 0 {
        Set::empty()
    } else {
        toggled(fold(wide.drop_last(), times), wide.last() as int / pow2(times) as int)
    }
}

/// The stored positions a folded filter of `s` bytes, folded `f` times with
/// `k` seeds, sets and tests for `element`.
pub open spec fn folded_positions(element: Seq<u8>, s: nat, f: nat, k: nat) -> Set<int> {
    fold(wide_positions(element, k, virtual_bits(s, f)), f)
}

/// The elements of a sequence, as a set.
pub open spec fn members(s: Seq<usize>) -> Set<int> {
    Set::new(|x: int| exists|i: int| 0 <= i < s.len() && s[i] as int == x)
}

/// A set of positions held without repeats, with idempotent and toggling
/// insertion.
pub struct SparseArray {
    indices_set: Vec<usize>,
}

impl SparseArray {
    /// The positions, in the order they were added.
    pub closed spec fn view(&self) -> Seq<usize> {
        self.indices_set@
    }

    /// No position is held twice.
    pub closed spec fn well_formed(&self) -> bool {
        self.indices_set@.no_duplicates()
    }

    /// An empty set with room for `capacity` positions.
    pub fn new_with_capacity(capacity: usize) -> (r: Self)
        ensures
            r.well_formed(),
            r@ == Seq::<usize>::empty(),
    {
        SparseArray { indices_set: Vec::with_capacity(capacity) }
    }

    /// Adds `index` unless it is already there.
    pub fn set_bit(&mut self, index: usize)
        requires
            old(self).well_formed(),
        ensures
            final(self).well_formed(),
            final(self)@ == if old(self)@.contains(index) {
                old(self)@
            } else {
                old(self)@.push(index)
            },
    {
        if self.test_bit(index) {
            return;
        }
        self.indices_set.push(index);
    }

    /// Removes `index` if it is there, and adds it otherwise.
    pub fn flip_bit(&mut self, index: usize)
        requires
            old(self).well_formed(),
        ensures
            final(self).well_formed(),
            members(final(self)@) == toggled(members(old(self)@), index as int),
    {
        let mut i: usize = 0;
        while i < self.indices_set.len()
            invariant
                self.indices_set@ == old(self).indices_set@,
                self.indices_set@.no_duplicates(),
                i <= self.indices_set.len(),
                forall|j: int| 0 <= j < i ==> self.indices_set@[j] != index,
            decreases self.indices_set.len() - i,
        {
            if self.indices_set[i] == index {
                let ghost s = self.indices_set@;
                self.indices_set.remove(i);
                assert(self@.no_duplicates()) by {
                    assert forall|a: int, b: int|
                        0 <= a < self@.len() && 0 <= b < self@.len() && a != b implies self@[a]
                        != self@[b] by {
                        let sa = if a < i { a } else { a + 1 };
                        let sb = if b < i { b } else { b + 1 };
                        assert(self@[a] == s[sa]);
                        assert(self@[b] == s[sb]);
                    }
                }
                assert(members(self@) =~= toggled(members(old(self)@), index as int)) by {
                    assert forall|x: int| members(self@).contains(x) implies toggled(
                        members(s),
                        index as int,
                    ).contains(x) by {
                        let t = choose|t: int| 0 <= t < self@.len() && self@[t] as int == x;
                        if t < i {
                            assert(s[t] == self@[t]);
                            assert(s[t] != s[i as int]);
                        } else {
                            assert(s[t + 1] == self@[t]);
                            assert(s[t + 1] != s[i as int]);
                        }
                    }
                    assert forall|x: int| toggled(members(s), index as int).contains(x) implies members(
                        self@,
                    ).contains(x) by {
                        let t = choose|t: int| 0 <= t < s.len() && s[t] as int == x;
                        if t < i {
                            assert(s[t] == self@[t]);
                        } else {
                            assert(t != i);
                            assert(s[t] == self@[t - 1]);
                        }
                    }
                }
                return;
            }
            i = i + 1;
        }
        let ghost s = self.indices_set@;
        self.indices_set.push(index);
        assert(self@.no_duplicates()) by {
            assert forall|a: int, b: int|
                0 <= a < self@.len() && 0 <= b < self@.len() && a != b implies self@[a] != self@[b] by {
                if a < s.len() {
                    assert(self@[a] == s[a]);
                }
                if b < s.len() {
                    assert(self@[b] == s[b]);
                }
            }
        }
        assert(members(self@) =~= toggled(members(old(self)@), index as int)) by {
            assert forall|x: int| members(self@).contains(x) implies toggled(members(s), index as int).contains(
                x,
            ) by {
                let t = choose|t: int| 0 <= t < self@.len() && self@[t] as int == x;
                if t < s.len() {
                    assert(s[t] == self@[t]);
                }
            }
            assert forall|x: int| toggled(members(s), index as int).contains(x) implies members(
                self@,
            ).contains(x) by {
                if x == index as int {
                    assert(self@[s.len() as int] == index);
                } else {
                    let t = choose|t: int| 0 <= t < s.len() && s[t] as int == x;
                    assert(s[t] == self@[t]);
                }
            }
        }
    }

    /// Whether `index` is held.
    pub fn test_bit(&self, index: usize) -> (r: bool)
        ensures
            r == self@.contains(index),
    {
        let mut i: usize = 0;
        while i < self.indices_set.len()
            invariant
                i <= self.indices_set.len(),
                forall|j: int| 0 <= j < i ==> self.indices_set@[j] != index,
            decreases self.indices_set.len() - i,
        {
            if self.indices_set[i] == index {
                return true;
            }
            i = i + 1;
        }
        false
    }

    /// Folds every position down by `times` bits, toggling the results.
    pub fn folded(&self, times: usize) -> (r: SparseArray)
        requires
            times < usize::BITS,
        ensures
            r.well_formed(),
            members(r@) == fold(self@, times as nat),
    {
        let mut result = Self::new_with_capacity(self.indices_set.len());
        let mut i: usize = 0;
        assert(members(result@) =~= fold(self@.take(0), times as nat));
        while i < self.indices_set.len()
            invariant
                times < usize::BITS,
                i <= self.indices_set.len(),
                result.well_formed(),
                members(result@) == fold(self@.take(i as int), times as nat),
            decreases self.indices_set.len() - i,
        {
            let index = self.indices_set[i];
            proof {
                lemma_usize_shr_is_div(index, times);
                assert(self@.take(i + 1).drop_last() =~= self@.take(i as int));
            }
            result.flip_bit(index >> times);
            i = i + 1;
        }
        assert(self@.take(self@.len() as int) =~= self@);
        result
    }
}

/// A filter of `S` bytes over a virtual space of `8 * S * 2^F` positions,
/// setting the fold of `K` wide positions per element.
#[derive(Debug)]
pub struct Folded<const F: usize, const S: usize, const K: usize> {
    pub bytes: [u8; S],
}

impl<const F: usize, const S: usize, const K: usize> Folded<F, S, K> {
    /// An empty filter.
    pub fn new() -> (r: Self)
        ensures
            forall|j: int| 0 <= j < 8 * S ==> !bit_at(r.bytes@, j),
    {
        let r = Folded { bytes: [0u8; S] };
        assert forall|j: int| 0 <= j < 8 * S implies !bit_at(r.bytes@, j) by {
            let b = r.bytes@[j / 8];
            let sh = (j % 8) as u8;
            assert((b >> sh) & 1u8 != 1u8) by (bit_vector)
                requires
                    b == 0u8,
            ;
        }
        r
    }

    /// Sets the folded positions of `hash`.
    pub fn insert(&mut self, hash: &[u8])
        requires
            valid_fold(S as nat, F as nat),
        ensures
            forall|j: int|
                0 <= j < 8 * S ==> bit_at(final(self).bytes@, j) == (bit_at(old(self).bytes@, j)
                    || folded_positions(hash@, S as nat, F as nat, K as nat).contains(j)),
    {
        let expected = Self::build_expected(hash);
        let folded = expected.folded(F);
        let ghost v = folded@;
        proof {
            lemma_virtual_bits_pos(S as nat, F as nat);
            lemma_wide_bounded(hash@, K as nat, virtual_bits(S as nat, F as nat));
            lemma_fold_bounded(expected@, S as nat, F as nat);
        }
        let mut i: usize = 0;
        while i < folded.indices_set.len()
            invariant
                v == folded@,
                i <= v.len(),
                members(v) == folded_positions(hash@, S as nat, F as nat, K as nat),
                forall|x: int| #[trigger] members(v).contains(x) ==> 0 <= x < 8 * S,
                forall|j: int|
                    0 <= j < 8 * S ==> bit_at(self.bytes@, j) == (bit_at(old(self).bytes@, j) || exists|
                        t: int,
                    | 0 <= t < i && v[t] as int == j),
            decreases v.len() - i,
        {
            let index = folded.indices_set[i];
            assert(members(v).contains(index as int));
            let ghost before = self.bytes@;
            self.set_bit(index);
            assert forall|j: int| 0 <= j < 8 * S implies bit_at(self.bytes@, j) == (bit_at(
                old(self).bytes@,
                j,
            ) || exists|t: int| 0 <= t < i + 1 && v[t] as int == j) by {
                lemma_with_bit(before, index as int, j);
                if j == index as int {
                    assert(v[i as int] as int == j);
                }
            }
            i = i + 1;
        }
        assert forall|j: int| 0 <= j < 8 * S implies bit_at(self.bytes@, j) == (bit_at(
            old(self).bytes@,
            j,
        ) || folded_positions(hash@, S as nat, F as nat, K as nat).contains(j)) by {
            assert(members(v).contains(j) == exists|t: int| 0 <= t < v.len() && v[t] as int == j);
        }
    }

    /// Whether the folded positions of `hash` are all set.
    pub fn has(&self, hash: &[u8]) -> (r: bool)
        requires
            valid_fold(S as nat, F as nat),
        ensures
            r == forall|j: int|
                #[trigger] folded_positions(hash@, S as nat, F as nat, K as nat).contains(j) ==> bit_at(
                    self.bytes@,
                    j,
                ),
    {
        let expected = Self::build_expected(hash);
        let folded = expected.folded(F);
        let ghost v = folded@;
        proof {
            lemma_virtual_bits_pos(S as nat, F as nat);
            lemma_wide_bounded(hash@, K as nat, virtual_bits(S as nat, F as nat));
            lemma_fold_bounded(expected@, S as nat, F as nat);
        }
        let mut i: usize = 0;
        while i < folded.indices_set.len()
            invariant
                v == folded@,
                i <= v.len(),
                members(v) == folded_positions(hash@, S as nat, F as nat, K as nat),
                forall|x: int| #[trigger] members(v).contains(x) ==> 0 <= x < 8 * S,
                forall|t: int| 0 <= t < i ==> bit_at(self.bytes@, #[trigger] v[t] as int),
            decreases v.len() - i,
        {
            let index = folded.indices_set[i];
            assert(members(v).contains(index as int));
            if !self.test_bit(index) {
                return false;
            }
            i = i + 1;
        }
        assert forall|j: int| #[trigger] members(v).contains(j) implies bit_at(self.bytes@, j) by {
            let t = choose|t: int| 0 <= t < v.len() && v[t] as int == j;
        }
        true
    }

    /// The distinct wide positions of `hash`.
    fn build_expected(hash: &[u8]) -> (r: SparseArray)
        requires
            valid_fold(S as nat, F as nat),
        ensures
            r.well_formed(),
            r@ == wide_positions(hash@, K as nat, virtual_bits(S as nat, F as nat)),
    {
        let mut expected = SparseArray::new_with_capacity(K);
        proof {
            lemma_virtual_bits_pos(S as nat, F as nat);
        }
        let base: u64 = (S as u64) * 8;
        proof {
            lemma_u64_shl_is_mul(base, F as u64);
        }
        let width: u64 = base << (F as u64);
        let mut seed: usize = 0;
        while seed < K
            invariant
                valid_fold(S as nat, F as nat),
                width == virtual_bits(S as nat, F as nat),
                0 < width,
                seed <= K,
                expected.well_formed(),
                expected@ == wide_positions(hash@, seed as nat, width as nat),
            decreases K - seed,
        {
            let index = (xxh3_64_with_seed(hash, seed as u64) % width) as usize;
            expected.set_bit(index);
            seed = seed + 1;
        }
        expected
    }

    /// Sets bit `index`.
    fn set_bit(&mut self, index: usize)
        requires
            index < 8 * S,
        ensures
            final(self).bytes@ == with_bit(old(self).bytes@, index as int),
    {
        let byte_index = index / 8;
        let bit_index = index % 8;
        self.bytes[byte_index] = self.bytes[byte_index] | (1u8 << (bit_index as u8));
        assert(self.bytes@ =~= with_bit(old(self).bytes@, index as int));
    }

    /// Whether bit `index` is set.
    fn test_bit(&self, index: usize) -> (r: bool)
        requires
            index < 8 * S,
        ensures
            r == bit_at(self.bytes@, index as int),
    {
        let byte_index = index / 8;
        let bit_index = index % 8;
        let b = self.bytes[byte_index];
        let bi = bit_index as u8;
        assert((b & (1u8 << bi)) != 0 <==> (b >> bi) & 1u8 == 1u8) by (bit_vector)
            requires
                bi < 8,
        ;
        (b & (1u8 << bi)) != 0
    }
}

/// A folded filter has no false negatives either: after an element is
/// inserted, whatever its wide positions cancelled, the positions it tests
/// are exactly those it set.
pub proof fn lemma_folded_added_is_held(before: Seq<u8>, after: Seq<u8>, element: Seq<u8>, s: nat, f: nat, k: nat)
    requires
        valid_fold(s, f),
        before.len() == s,
        after.len() == s,
        forall|j: int|
            0 <= j < 8 * s ==> bit_at(after, j) == (bit_at(before, j) || folded_positions(
                element,
                s,
                f,
                k,
            ).contains(j)),
    ensures
        forall|j: int| #[trigger] folded_positions(element, s, f, k).contains(j) ==> bit_at(after, j),
{
    lemma_virtual_bits_pos(s, f);
    lemma_wide_bounded(element, k, virtual_bits(s, f));
    lemma_fold_bounded(wide_positions(element, k, virtual_bits(s, f)), s, f);
}

/// Folding zero times folds nothing: the positions are the wide positions
/// themselves, none cancelled.
pub proof fn lemma_unfolded_positions(element: Seq<u8>, s: nat, k: nat)
    requires
        valid_fold(s, 0),
    ensures
        folded_positions(element, s, 0, k) == members(wide_positions(element, k, virtual_bits(s, 0))),
{
    let wide = wide_positions(element, k, virtual_bits(s, 0));
    lemma_wide_distinct(element, k, virtual_bits(s, 0));
    lemma_fold_zero(wide);
}

proof fn lemma_wide_distinct(element: Seq<u8>, k: nat, width: nat)
    ensures
        wide_positions(element, k, width).no_duplicates(),
    decreases k,
{
    if k > 0 {
        lemma_wide_distinct(element, (k - 1) as nat, width);
        let prev = wide_positions(element, (k - 1) as nat, width);
        let p = (xxh3_seeded(element, (k - 1) as u64) % (width as u64)) as usize;
        if !prev.contains(p) {
            let n = prev.push(p);
            assert forall|a: int, b: int| 0 <= a < n.len() && 0 <= b < n.len() && a != b implies n[a]
                != n[b] by {
                if a < prev.len() {
                    assert(n[a] == prev[a]);
                }
                if b < prev.len() {
                    assert(n[b] == prev[b]);
                }
            }
        }
    }
}

proof fn lemma_fold_zero(wide: Seq<usize>)
    requires
        wide.no_duplicates(),
    ensures
        fold(wide, 0) == members(wide),
    decreases wide.len(),
{
    if wide.len() > 0 {
        let rest = wide.drop_last();
        assert(rest.no_duplicates()) by {
            assert forall|a: int, b: int| 0 <= a < rest.len() && 0 <= b < rest.len() && a != b implies rest[a]
                != rest[b] by {
                assert(rest[a] == wide[a] && rest[b] == wide[b]);
            }
        }
        lemma_fold_zero(rest);
        lemma_pow2_zero();
        let x = wide.last() as int;
        assert(x / pow2(0) as int == x);
        assert(!members(rest).contains(x)) by {
            if members(rest).contains(x) {
                let t = choose|t: int| 0 <= t < rest.len() && rest[t] as int == x;
                assert(wide[t] == wide[wide.len() - 1]);
            }
        }
        assert(members(wide) =~= members(rest).insert(x)) by {
            assert forall|y: int| members(wide).contains(y) implies members(rest).insert(x).contains(y) by {
                let t = choose|t: int| 0 <= t < wide.len() && wide[t] as int == y;
                if t < rest.len() {
                    assert(rest[t] == wide[t]);
                }
            }
            assert forall|y: int| members(rest).insert(x).contains(y) implies members(wide).contains(y) by {
                if y == x {
                    assert(wide[wide.len() - 1] as int == y);
                } else {
                    let t = choose|t: int| 0 <= t < rest.len() && rest[t] as int == y;
                    assert(wide[t] == rest[t]);
                }
            }
        }
    } else {
        assert(members(wide) =~= Set::empty());
    }
}

proof fn lemma_pow2_zero()
    ensures
        pow2(0) == 1,
{
    lemma2_to64();
}

proof fn lemma_virtual_bits_pos(s: nat, f: nat)
    requires
        0 < s,
    ensures
        8 <= 8 * s <= virtual_bits(s, f),
{
    lemma_pow2_pos(f);
    assert(8 * s <= 8 * s * pow2(f)) by (nonlinear_arith)
        requires
            pow2(f) >= 1,
    ;
}

proof fn lemma_wide_bounded(element: Seq<u8>, k: nat, width: nat)
    requires
        0 < width <= u64::MAX,
        width <= usize::MAX,
    ensures
        forall|i: int|
            0 <= i < wide_positions(element, k, width).len() ==> (#[trigger] wide_positions(
                element,
                k,
                width,
            )[i]) < width,
    decreases k,
{
    if k > 0 {
        let prev = wide_positions(element, (k - 1) as nat, width);
        let p = (xxh3_seeded(element, (k - 1) as u64) % (width as u64)) as usize;
        lemma_wide_bounded(element, (k - 1) as nat, width);
        assert(p < width);
        if !prev.contains(p) {
            assert forall|i: int| 0 <= i < prev.push(p).len() implies (#[trigger] prev.push(p)[i])
                < width by {
                if i < prev.len() {
                    assert(prev.push(p)[i] == prev[i]);
                }
            }
        }
    }
}

/// Every folded position lies in the stored bits.
pub proof fn lemma_fold_bounded(wide: Seq<usize>, s: nat, f: nat)
    requires
        forall|i: int| 0 <= i < wide.len() ==> (#[trigger] wide[i]) < virtual_bits(s, f),
    ensures
        forall|x: int| #[trigger] fold(wide, f).contains(x) ==> 0 <= x < 8 * s,
    decreases wide.len(),
{
    if wide.len() > 0 {
        let rest = wide.drop_last();
        assert forall|i: int| 0 <= i < rest.len() implies (#[trigger] rest[i]) < virtual_bits(s, f) by {
            assert(rest[i] == wide[i]);
        }
        lemma_fold_bounded(rest, s, f);
        let w = wide.last() as int;
        lemma_pow2_pos(f);
        assert(w < pow2(f) * (8 * s)) by (nonlinear_arith)
            requires
                w < 8 * s * pow2(f),
        ;
        lemma_multiply_divide_lt(w, pow2(f) as int, (8 * s) as int);
        lemma_div_pos_is_pos(w, pow2(f) as int);
        let q = w / pow2(f) as int;
        assert(fold(wide, f) == toggled(fold(rest, f), q));
        assert forall|x: int| #[trigger] fold(wide, f).contains(x) implies 0 <= x < 8 * s by {
            if x != q {
                assert(fold(rest, f).contains(x));
            }
        }
    }
}

} // verus!
