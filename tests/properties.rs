use nyberg_filter::{
    Blake3XOF, Bloom, BloomIndicesBlake3, BloomIndicesXXH3, DistinctSampling, Folded, RejectionSampling, WordStream,
    YieldBits, XXH3XOF,
};
use xxhash_rust::xxh3::xxh3_64_with_seed;

fn bit(bytes: &[u8], i: usize) -> bool {
    bytes[i / 8] & (1u8 << (i % 8)) != 0
}

fn ones(bytes: &[u8]) -> u32 {
    bytes.iter().map(|b| b.count_ones()).sum()
}

#[test]
fn xxh3_stream_follows_the_seeds() {
    let mut s = XXH3XOF::from(b"abc" as &[u8]);
    assert_eq!(s.next(), Some(xxh3_64_with_seed(b"abc", 0)));
    assert_eq!(s.next(), Some(xxh3_64_with_seed(b"abc", 1)));
    assert_eq!(s.next(), Some(xxh3_64_with_seed(b"abc", 2)));
}

#[test]
fn blake3_stream_reads_the_output_in_order() {
    let mut out = [0u8; 24];
    blake3::Hasher::new().update(b"abc").finalize_xof().fill(&mut out);
    let mut s = Blake3XOF::from(b"abc" as &[u8]);
    for i in 0..3 {
        let mut w = [0u8; 8];
        w.copy_from_slice(&out[8 * i..8 * i + 8]);
        assert_eq!(s.next(), Some(u64::from_le_bytes(w)));
    }
}

#[test]
fn yield_bits_takes_bytes_low_first() {
    let w0 = xxh3_64_with_seed(b"Hello, World!", 0);
    let w1 = xxh3_64_with_seed(b"Hello, World!", 1);
    let mut g = YieldBits::yield_bits(XXH3XOF::from(b"Hello, World!" as &[u8]), 8);
    for i in 0..8 {
        assert_eq!(g.next(), Some((w0 >> (8 * i)) & 0xff));
    }
    assert_eq!(g.next(), Some(w1 & 0xff));
}

#[test]
fn yield_bits_discards_a_short_remainder() {
    let w0 = xxh3_64_with_seed(b"xyz", 0);
    let w1 = xxh3_64_with_seed(b"xyz", 1);
    let mask = (1u64 << 24) - 1;
    let mut g = YieldBits::yield_bits(XXH3XOF::from(b"xyz" as &[u8]), 24);
    assert_eq!(g.next(), Some(w0 & mask));
    assert_eq!(g.next(), Some((w0 >> 24) & mask));
    assert_eq!(g.next(), Some(w1 & mask));
    assert_eq!(g.next(), Some((w1 >> 24) & mask));
}

#[test]
fn rejection_sampling_keeps_only_small_words() {
    let max = 1u64 << 62;
    let expected: Vec<u64> = (0..64u64)
        .map(|seed| xxh3_64_with_seed(b"e", seed))
        .filter(|w| *w < max)
        .take(5)
        .collect();
    let mut r = RejectionSampling::accept_smaller(XXH3XOF::from(b"e" as &[u8]), max);
    for w in expected {
        assert_eq!(r.next(), Some(w));
    }
}

#[test]
fn rejection_sampling_is_roughly_uniform() {
    let max = 100u64;
    let mut r = RejectionSampling::accept_smaller(
        YieldBits::yield_bits(XXH3XOF::from(b"uniform" as &[u8]), 7),
        max,
    );
    let mut counts = [0u32; 100];
    for _ in 0..100_000 {
        let v = r.next().unwrap();
        assert!(v < max);
        counts[v as usize] += 1;
    }
    for c in counts {
        assert!((800..=1200).contains(&c), "bucket count {c}");
    }
}

#[test]
fn distinct_sampling_never_repeats() {
    let mut d = DistinctSampling::distinct(BloomIndicesXXH3::<2>::from(b"some element" as &[u8]));
    let mut seen = Vec::new();
    for _ in 0..16 {
        let v = d.next_distinct().unwrap();
        assert!(v < 16);
        assert!(!seen.contains(&v));
        seen.push(v);
    }
    seen.sort();
    assert_eq!(seen, (0..16).collect::<Vec<u64>>());
}

#[test]
fn modulo_indices_reduce_the_hash() {
    let mut s = BloomIndicesXXH3::<125>::from(b"one" as &[u8]);
    assert_eq!(s.next(), Some(xxh3_64_with_seed(b"one", 0) % 1000));
    assert_eq!(s.next(), Some(xxh3_64_with_seed(b"one", 1) % 1000));
}

#[test]
fn added_elements_are_held() {
    let mut bloom: Bloom<256, 30> = Bloom::new();
    for i in 0u32..60 {
        bloom.add(&i.to_le_bytes());
        assert!(bloom.has(&i.to_le_bytes()));
    }
    for i in 0u32..60 {
        assert!(bloom.has(&i.to_le_bytes()));
    }
}

#[test]
fn empty_filter_holds_nothing() {
    let bloom: Bloom<32, 3> = Bloom::new();
    assert_eq!(bloom.count_ones(), 0);
    assert!(!bloom.has(b"anything"));
}

#[test]
fn count_ones_counts_every_bit() {
    let mut bloom: Bloom<3, 1> = Bloom::new();
    bloom.bytes = [0xff, 0x01, 0x80];
    assert_eq!(bloom.count_ones(), 10);
}

#[test]
fn add_sets_at_most_k_bits() {
    let mut bloom: Bloom<64, 5> = Bloom::new();
    bloom.add(b"element");
    let c = bloom.count_ones();
    assert!((1..=5).contains(&c));
}

#[test]
fn unfolded_filter_has_no_false_negatives() {
    let mut f = Folded::<0, 64, 10>::new();
    for i in 0u32..40 {
        f.insert(&i.to_le_bytes());
    }
    for i in 0u32..40 {
        assert!(f.has(&i.to_le_bytes()));
    }
}

#[test]
fn folded_filter_holds_what_it_inserted() {
    let mut f1 = Folded::<1, 64, 10>::new();
    let mut f3 = Folded::<3, 16, 10>::new();
    for i in 0u32..40 {
        f1.insert(&i.to_le_bytes());
        f3.insert(&i.to_le_bytes());
    }
    for i in 0u32..40 {
        assert!(f1.has(&i.to_le_bytes()));
        assert!(f3.has(&i.to_le_bytes()));
    }
}

#[test]
fn folded_insert_toggles_colliding_positions() {
    const S: usize = 2;
    const F: usize = 2;
    const K: usize = 12;
    let width = (S * 8 << F) as u64;
    let mut wide: Vec<usize> = Vec::new();
    for seed in 0..K as u64 {
        let p = (xxh3_64_with_seed(b"fold me", seed) % width) as usize;
        if !wide.contains(&p) {
            wide.push(p);
        }
    }
    let mut folded: Vec<usize> = Vec::new();
    for p in wide {
        let q = p >> F;
        if let Some(at) = folded.iter().position(|x| *x == q) {
            folded.remove(at);
        } else {
            folded.push(q);
        }
    }
    let mut f = Folded::<F, S, K>::new();
    f.insert(b"fold me");
    for i in 0..S * 8 {
        assert_eq!(bit(&f.bytes, i), folded.contains(&i));
    }
}

#[test]
fn saturation_stays_within_the_ceiling() {
    let mut bloom: Bloom<256, 30> = Bloom::new();
    bloom.add(b"content");
    let before = bloom.bytes;
    bloom.saturate();
    let after = bloom.count_ones();
    assert!(after <= 1019);
    assert!(after > ones(&before));
    for i in 0..256 * 8 {
        if bit(&before, i) {
            assert!(bit(&bloom.bytes, i));
        }
    }
}

#[test]
fn saturation_is_deterministic() {
    let mut a: Bloom<256, 30> = Bloom::new();
    let mut b: Bloom<256, 30> = Bloom::new();
    a.add(b"same");
    b.add(b"same");
    a.saturate();
    b.saturate();
    assert_eq!(a.bytes, b.bytes);
}

#[test]
fn saturation_below_current_count_changes_nothing() {
    let mut bloom: Bloom<64, 8> = Bloom::new();
    bloom.add(b"a");
    bloom.add(b"b");
    let before = bloom.bytes;
    let c = bloom.count_ones();
    bloom.saturate_to(c - 1);
    assert_eq!(bloom.bytes, before);
}

#[test]
fn saturation_to_a_small_ceiling() {
    let mut bloom: Bloom<64, 8> = Bloom::new();
    bloom.saturate_to(100);
    let c = bloom.count_ones();
    assert!(c <= 100);
    assert!(c > 100 - 8);
}

#[test]
fn blake3_indices_reduce_the_output() {
    let mut out = [0u8; 16];
    blake3::Hasher::new().update(b"two").finalize_xof().fill(&mut out);
    let mut s = BloomIndicesBlake3::<125>::from(b"two" as &[u8]);
    for i in 0..2 {
        let mut w = [0u8; 8];
        w.copy_from_slice(&out[8 * i..8 * i + 8]);
        assert_eq!(s.next(), Some(u64::from_le_bytes(w) % 1000));
    }
}

#[test]
fn hex_text_round_trips() {
    let mut bloom: Bloom<125, 4> = Bloom::new();
    bloom.add(b"one");
    bloom.add(b"three");
    let text = bloom.to_hex();
    assert_eq!(text, hex::encode(bloom.bytes));
    let back: Bloom<125, 4> = Bloom::from_hex(&text).unwrap();
    assert_eq!(back.bytes, bloom.bytes);
}

#[test]
fn hex_text_is_lowercase_high_half_first() {
    let mut bloom: Bloom<3, 1> = Bloom::new();
    bloom.bytes = [0x0f, 0xa0, 0x5c];
    assert_eq!(bloom.to_hex(), "0fa05c");
}

#[test]
fn hex_text_accepts_either_case() {
    let bloom: Bloom<2, 1> = Bloom::from_hex("aBcD").unwrap();
    assert_eq!(bloom.bytes, [0xab, 0xcd]);
}

#[test]
fn hex_text_of_the_wrong_kind_is_refused() {
    assert!(Bloom::<2, 1>::from_hex("abc").is_none());
    assert!(Bloom::<2, 1>::from_hex("abcg").is_none());
    assert!(Bloom::<2, 1>::from_hex("abcdef").is_none());
    assert!(Bloom::<2, 1>::from_hex("").is_none());
}
