use data_structures::bloom_filter::BloomFilter;
use data_structures::bloom_filters::bloom_filter_prod::BloomFilterProd;

/// Sizes a filter for a number of elements and a rate of false positives.
fn sized(elements: usize, false_probability: f32) -> BloomFilterProd {
    let log2 = 2f32.ln();

    // m = -n * log2(p) / ln(2)
    let bit_count = -((elements as f32 * false_probability.log2()) / log2).ceil() as usize;
    // k = m/n * ln(2)
    let hash_count = (bit_count as f32 / elements as f32 * log2).ceil() as usize;

    BloomFilterProd::with_counts(bit_count, hash_count)
}

fn position(key: &str, seed: usize, len: usize) -> usize {
    seahash::hash_seeded(key.as_bytes(), seed as u64, 0, 0, 0) as usize % len
}

#[test]
fn bloom_filter_prod_test_init_zeros() {
    let bl = sized(10, 0.01);
    bl.bits().iter().for_each(|bit| assert!(!bit));
}

#[test]
fn test_hash_order_sensitive() {
    let bl = sized(10, 0.01);
    let hash1 = bl.hash("mango", 0);
    let hash2 = bl.hash("mango", 1);
    assert_ne!(hash1, hash2);
}

#[test]
fn test_hash_palindrome_sensitive() {
    let bl = sized(10, 0.01);
    let hash1 = bl.hash("mango", 0);
    let hash2 = bl.hash("ognam", 0);
    assert_ne!(hash1, hash2);
}

#[test]
fn sized_filter_has_the_counts_of_the_formula() {
    let bl = sized(10, 0.01);
    assert_eq!(bl.bits().len(), 95);
    assert_eq!(bl.hash_count(), 7);
}

#[test]
fn with_counts_gives_that_many_zero_bits() {
    for (bit_count, hash_count) in [(0usize, 0usize), (1, 1), (7, 3), (64, 2), (65, 0), (1000, 9)] {
        let bl = BloomFilterProd::with_counts(bit_count, hash_count);
        assert_eq!(bl.bits(), vec![false; bit_count]);
        assert_eq!(bl.hash_count(), hash_count);
    }
}

#[test]
fn hash_is_the_seeded_seahash_modulo_the_length() {
    let bl = BloomFilterProd::with_counts(95, 7);
    for key in ["", "mango", "ognam", "apple", "ключ"] {
        for seed in [0usize, 1, 2, 6, 1000] {
            assert_eq!(bl.hash(key, seed), position(key, seed, 95));
            assert_eq!(bl.hash(key, seed), bl.hash(key, seed));
        }
    }
    let one = BloomFilterProd::with_counts(1, 1);
    assert_eq!(one.hash("mango", 0), 0);
}

#[test]
fn insert_sets_exactly_the_positions_of_the_key() {
    let mut bl = BloomFilterProd::with_counts(95, 7);
    assert!(!bl.contains("mango"));
    bl.insert("mango");

    let mut expected = vec![false; 95];
    for seed in 0..7 {
        expected[position("mango", seed, 95)] = true;
    }
    assert_eq!(bl.bits(), expected);
    assert!(bl.contains("mango"));

    bl.insert("apple");
    for seed in 0..7 {
        expected[position("apple", seed, 95)] = true;
    }
    assert_eq!(bl.bits(), expected);
    assert_eq!(bl.hash_count(), 7);
}

#[test]
fn contains_asks_every_position_of_the_key() {
    let mut bl = BloomFilterProd::with_counts(4096, 5);
    bl.insert("mango");
    for key in ["apple", "orange", "banana", "carrot", "radish", "vegetable", "onion"] {
        let expected = (0..5).all(|seed| bl.bits()[position(key, seed, 4096)]);
        assert_eq!(bl.contains(key), expected);
    }
    assert!(!bl.contains("apple"));
}

#[test]
fn prod_filter_never_forgets_a_key() {
    let mut bl = sized(10, 0.01);
    let keys = ["mango", "apple", "orange", "banana", "carrot", "radish"];
    for (count, key) in keys.iter().enumerate() {
        bl.insert(key);
        for earlier in &keys[..=count] {
            assert!(bl.contains(earlier));
        }
    }
}

#[test]
fn filter_without_hashes_says_yes_to_everything() {
    let mut bl = BloomFilterProd::with_counts(0, 0);
    assert!(bl.contains("mango"));
    bl.insert("mango");
    assert!(bl.bits().is_empty());

    let mut bl = BloomFilterProd::with_counts(8, 0);
    bl.insert("mango");
    assert_eq!(bl.bits(), vec![false; 8]);
    assert!(bl.contains("apple"));
}

#[test]
fn position_is_the_hash_value_modulo_the_length() {
    let bl = BloomFilterProd::with_counts(95, 7);
    assert_eq!(bl.position(0), 0);
    assert_eq!(bl.position(94), 94);
    assert_eq!(bl.position(95), 0);
    assert_eq!(bl.position(200), 10);
    assert_eq!(bl.position(u64::MAX), u64::MAX as usize % 95);
}
