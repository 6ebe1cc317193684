//! A byte buffer seen as a bit array: bit `i` is bit `i % 8` of byte `i / 8`.
use vstd::prelude::*;

verus! {

/// Whether bit `i` of `bytes` is set.
pub open spec fn bit_at(bytes: Seq<u8>, i: int) -> bool {
    (bytes[i / 8] >> ((i % 8) as u8)) & 1u8 == 1u8
}

/// `bytes` with bit `i` set.
pub open spec fn with_bit(bytes: Seq<u8>, i: int) -> Seq<u8> {
    bytes.update(i / 8, bytes[i / 8] | (1u8 << ((i % 8) as u8)))
}

/// `bytes` with every bit listed in `idx` set, in order.
pub open spec fn with_bits(bytes: Seq<u8>, idx: Seq<u64>) -> Seq<u8>
    decreases idx.len(),
{
    if idx.len() == 0 {
        bytes
    } else {
        with_bit(with_bits(bytes, idx.drop_last()), idx.last() as int)
    }
}

/// Whether position `j` occurs in `idx`.
pub open spec fn lists(idx: Seq<u64>, j: int) -> bool {
    exists|k: int| 0 <= k < idx.len() && idx[k] as int == j
}

/// The number of set bits of one byte.
pub open spec fn byte_ones(b: u8) -> nat {
    ((b & 1u8) + ((b >> 1u8) & 1u8) + ((b >> 2u8) & 1u8) + ((b >> 3u8) & 1u8) + ((b >> 4u8) & 1u8)
        + ((b >> 5u8) & 1u8) + ((b >> 6u8) & 1u8) + ((b >> 7u8) & 1u8)) as nat
}

/// The number of set bits of a byte buffer.
pub open spec fn ones(bytes: Seq<u8>) -> nat
    decreases bytes.len(),
{
    if bytes.len() == 0 {
        0
    } else {
        ones(bytes.drop_last()) + byte_ones(bytes.last())
    }
}

/// Every bit set in `a` is set in `b`.
pub open spec fn bits_within(a: Seq<u8>, b: Seq<u8>) -> bool {
    &&& a.len() == b.len()
    &&& forall|i: int| 0 <= i < 8 * a.len() && #[trigger] bit_at(a, i) ==> bit_at(b, i)
}

proof fn lemma_byte_or_bit(b: u8, x: u8, y: u8)
    requires
        x < 8,
        y < 8,
    ensures
        ((b | (1u8 << x)) >> y) & 1u8 == 1u8 <==> (x == y || (b >> y) & 1u8 == 1u8),
{
    assert(((b | (1u8 << x)) >> y) & 1u8 == 1u8 <==> (x == y || (b >> y) & 1u8 == 1u8))
        by (bit_vector)
        requires
            x < 8,
            y < 8,
    ;
}

/// Setting bit `i` sets that bit and leaves every other bit as it was.
pub proof fn lemma_with_bit(bytes: Seq<u8>, i: int, j: int)
    requires
        0 <= i < 8 * bytes.len(),
        0 <= j < 8 * bytes.len(),
    ensures
        with_bit(bytes, i).len() == bytes.len(),
        bit_at(with_bit(bytes, i), j) == (j == i || bit_at(bytes, j)),
{
    if j / 8 == i / 8 {
        lemma_byte_or_bit(bytes[i / 8], (i % 8) as u8, (j % 8) as u8);
    }
}

/// Setting the bits of `idx` sets exactly those bits.
pub proof fn lemma_with_bits(bytes: Seq<u8>, idx: Seq<u64>, j: int)
    requires
        forall|k: int| 0 <= k < idx.len() ==> (#[trigger] idx[k]) < 8 * bytes.len(),
        0 <= j < 8 * bytes.len(),
    ensures
        with_bits(bytes, idx).len() == bytes.len(),
        bit_at(with_bits(bytes, idx), j) == (bit_at(bytes, j) || lists(idx, j)),
    decreases idx.len(),
{
    if idx.len() > 0 {
        let rest = idx.drop_last();
        assert forall|k: int| 0 <= k < rest.len() implies (#[trigger] rest[k]) < 8 * bytes.len() by {
            assert(rest[k] == idx[k]);
        }
        lemma_with_bits(bytes, rest, j);
        lemma_with_bit(with_bits(bytes, rest), idx.last() as int, j);
        assert(idx == rest.push(idx.last()));
        if lists(idx, j) && !lists(rest, j) {
            let k = choose|k: int| 0 <= k < idx.len() && idx[k] as int == j;
            if k < rest.len() {
                assert(rest[k] == idx[k]);
            }
        }
        if lists(rest, j) {
            let k = choose|k: int| 0 <= k < rest.len() && rest[k] as int == j;
            assert(idx[k] == rest[k]);
        }
    }
}

proof fn lemma_byte_ones_or(b: u8, m: u8)
    ensures
        byte_ones(b | m) >= byte_ones(b),
{
    assert(((b | m) & 1u8) + (((b | m) >> 1u8) & 1u8) + (((b | m) >> 2u8) & 1u8) + (((b | m) >> 3u8)
        & 1u8) + (((b | m) >> 4u8) & 1u8) + (((b | m) >> 5u8) & 1u8) + (((b | m) >> 6u8) & 1u8) + (((b
        | m) >> 7u8) & 1u8) >= (b & 1u8) + ((b >> 1u8) & 1u8) + ((b >> 2u8) & 1u8) + ((b >> 3u8)
        & 1u8) + ((b >> 4u8) & 1u8) + ((b >> 5u8) & 1u8) + ((b >> 6u8) & 1u8) + ((b >> 7u8) & 1u8))
        by (bit_vector);
}

proof fn lemma_ones_update(s: Seq<u8>, k: int, x: u8)
    requires
        0 <= k < s.len(),
    ensures
        ones(s.update(k, x)) + byte_ones(s[k]) == ones(s) + byte_ones(x),
    decreases s.len(),
{
    let u = s.update(k, x);
    if k == s.len() - 1 {
        assert(u.drop_last() == s.drop_last());
    } else {
        lemma_ones_update(s.drop_last(), k, x);
        assert(u.drop_last() == s.drop_last().update(k, x));
    }
}

/// Setting a bit never lowers the population count.
pub proof fn lemma_ones_with_bit(bytes: Seq<u8>, i: int)
    requires
        0 <= i < 8 * bytes.len(),
    ensures
        ones(with_bit(bytes, i)) >= ones(bytes),
{
    lemma_byte_ones_or(bytes[i / 8], 1u8 << ((i % 8) as u8));
    lemma_ones_update(bytes, i / 8, bytes[i / 8] | (1u8 << ((i % 8) as u8)));
}

/// Setting bits never lowers the population count, and keeps every bit set.
pub proof fn lemma_with_bits_grows(bytes: Seq<u8>, idx: Seq<u64>)
    requires
        forall|k: int| 0 <= k < idx.len() ==> (#[trigger] idx[k]) < 8 * bytes.len(),
    ensures
        ones(with_bits(bytes, idx)) >= ones(bytes),
        bits_within(bytes, with_bits(bytes, idx)),
{
    assert forall|j: int| 0 <= j < 8 * bytes.len() && #[trigger] bit_at(bytes, j) implies bit_at(
        with_bits(bytes, idx),
        j,
    ) by {
        lemma_with_bits(bytes, idx, j);
    }
    lemma_with_bits_ones(bytes, idx);
    if 0 < 8 * bytes.len() {
        lemma_with_bits(bytes, idx, 0);
    } else {
        lemma_with_bits_len(bytes, idx);
    }
}

proof fn lemma_with_bits_len(bytes: Seq<u8>, idx: Seq<u64>)
    requires
        forall|k: int| 0 <= k < idx.len() ==> (#[trigger] idx[k]) < 8 * bytes.len(),
    ensures
        with_bits(bytes, idx).len() == bytes.len(),
    decreases idx.len(),
{
    if idx.len() > 0 {
        let rest = idx.drop_last();
        assert forall|k: int| 0 <= k < rest.len() implies (#[trigger] rest[k]) < 8 * bytes.len() by {
            assert(rest[k] == idx[k]);
        }
        lemma_with_bits_len(bytes, rest);
    }
}

proof fn lemma_with_bits_ones(bytes: Seq<u8>, idx: Seq<u64>)
    requires
        forall|k: int| 0 <= k < idx.len() ==> (#[trigger] idx[k]) < 8 * bytes.len(),
    ensures
        ones(with_bits(bytes, idx)) >= ones(bytes),
    decreases idx.len(),
{
    if idx.len() > 0 {
        let rest = idx.drop_last();
        assert forall|k: int| 0 <= k < rest.len() implies (#[trigger] rest[k]) < 8 * bytes.len() by {
            assert(rest[k] == idx[k]);
        }
        lemma_with_bits_ones(bytes, rest);
        lemma_with_bits_len(bytes, rest);
        lemma_ones_with_bit(with_bits(bytes, rest), idx.last() as int);
    }
}

} // verus!
