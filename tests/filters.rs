use sha3::digest::{ExtendableOutput, Update, XofReader};

use nyberg_filter::{Bloom, BloomIndicesXXH3RejectionSampling, Folded, WordStream, YieldBits, XXH3XOF};

#[test]
fn test_folded() {
    let mut bloom = Folded::<1, 128, 30>::new();
    bloom.insert(b"Hello, World");
    assert!(bloom.has(b"Hello, World"));
    assert!(!bloom.has(b"Test"));
}

#[test]
fn test_yield_bits() {
    let mut words = XXH3XOF::from(b"Hello, World!" as &[u8]);
    for _ in 0..2 {
        println!("{:x}", words.next().unwrap());
    }
    let mut groups = YieldBits::yield_bits(XXH3XOF::from(b"Hello, World!" as &[u8]), 8);
    for _ in 0..16 {
        println!("{:x}", groups.next().unwrap());
    }
}

#[test]
fn test_xof() {
    let mut hasher = sha3::Shake256::default();
    hasher.update(b"Hello, World!");
    let mut xof = hasher.finalize_xof();
    let buffer = &mut [0u8; 10];
    xof.read(buffer);

    println!("{:02x?}", buffer);
}

#[test]
fn test_vectors() {
    let mut bloom: Bloom<125, 4> = Bloom::new();
    bloom.add(b"one");
    bloom.add(b"three");
    assert_eq!(hex::encode(bloom.bytes), "0000000000000000000000000000000000000000000000000000000000000000000000000000100000000000004000000000000001000000000000000000000000000400004000000000000000800000000000000000000000000000000000000000000000000000000000000000000020000000000000000000000400");
}

#[test]
fn test_sth() {
    let decoded: Vec<u8> = hex::decode("0000000000000000000000000000000000000000000400000000000000000000000000000000100000000000004000000008000001000000000000000000002000000400004000000000000000800000000000000000000000000000000000000000000000000000000000002000000020000000000000000000000400").unwrap();
    let mut bloom: Bloom<125, 4> = Bloom::new();
    bloom.bytes.copy_from_slice(&decoded);
    let count = bloom.count_ones();
    println!("{count}");
}

#[test]
fn test_indices() {
    println!("indices for 'one':");
    let mut one = BloomIndicesXXH3RejectionSampling::<125>::from(b"one" as &[u8]);
    for _ in 0..4 {
        let index = one.next().unwrap();
        println!("{index}");
    }
    println!("indices for 'two':");
    let mut two = BloomIndicesXXH3RejectionSampling::<125>::from(b"two" as &[u8]);
    for _ in 0..4 {
        let index = two.next().unwrap();
        println!("{index}");
    }
    println!("indices for 'three':");
    let mut three = BloomIndicesXXH3RejectionSampling::<125>::from(b"three" as &[u8]);
    for _ in 0..4 {
        let index = three.next().unwrap();
        println!("{index}");
    }
}
