use data_structures::bloom_filter::{bloomy, BloomFilter};
use data_structures::bloom_filters::bloom_filter_prod::BloomFilterProd;
use data_structures::bloom_filters::bloom_filters_32_arr::BloomFilter32;
use data_structures::bloom_filters::bloom_filters_32_bitvec::BloomFilter32BitVec;

#[test]
fn bloom_filters_32_bitvec_test_init_zeros() {
    let bl = BloomFilter32BitVec::default();

    bl.bits().iter().for_each(|bit| assert!(!bit));
}

#[test]
fn bloom_filters_32_bitvec_test_addititve_hasher_empty_string() {
    let bl = BloomFilter32BitVec::default();
    assert_eq!(bl.additive_hasher(""), 0);
}

#[test]
fn bit_array_filter_has_32_bits() {
    let bl = BloomFilter32BitVec::default();
    assert_eq!(bl.bits(), vec![false; 32]);
}

#[test]
fn bit_array_filter_hashes_like_the_array_filter() {
    let bits = BloomFilter32BitVec::default();
    let array = BloomFilter32::default();
    for key in ["", "a", "ad", "da", "mango", "apple", "orange", "banana", "vegetable", "ключ"] {
        assert_eq!(bits.additive_hasher(key), array.additive_hasher(key));
        assert_eq!(bits.place_value_hasher(key), array.place_value_hasher(key));
    }
    assert_eq!(bits.additive_hasher("da"), 5);
    assert_eq!(bits.place_value_hasher("da"), 24);
}

#[test]
fn bit_array_filter_sets_both_positions_and_finds_the_key() {
    let mut bl = BloomFilter32BitVec::default();
    assert!(!bl.contains("da"));
    bl.insert("da");

    let mut expected = vec![false; 32];
    expected[5] = true;
    expected[24] = true;
    assert_eq!(bl.bits(), expected);
    assert!(bl.contains("da"));
    assert!(!bl.contains("ad"));

    bl.insert("a");
    expected[1] = true;
    expected[4] = true;
    assert_eq!(bl.bits(), expected);
}

#[test]
fn bit_array_filter_keeps_the_bits_of_the_array_filter() {
    let mut bits = BloomFilter32BitVec::default();
    let mut array = BloomFilter32::default();
    for key in ["mango", "apple", "orange", "banana"] {
        bits.insert(key);
        array.insert(key);
        assert_eq!(bits.bits(), array.bits.to_vec());
    }
    for key in ["carrot", "radish", "vegetable", "onion", "mango"] {
        assert_eq!(bits.contains(key), array.contains(key));
    }
}

#[test]
fn bit_array_filter_shows_its_bits_between_quotes() {
    let mut bl = BloomFilter32BitVec::default();
    assert_eq!(bl.debug_string(), format!("\"{}\"", "0 ".repeat(32)));
    bl.insert("da");
    assert_eq!(
        bl.debug_string(),
        "\"0 0 0 0 0 1 0 0 0 0 0 0 0 0 0 0 0 0 0 0 0 0 0 0 1 0 0 0 0 0 0 0 \""
    );
}

#[test]
fn bloomy_inserts_then_asks_for_the_test_keys_and_the_keys() {
    let keys = vec!["mango", "apple", "orange", "banana"];
    let test_keys = vec!["carrot", "radish", "vegetable", "onion"];

    let mut bl = BloomFilter32::default();
    let results = bloomy(&mut bl, &keys, &test_keys);
    assert_eq!(results.len(), 8);
    for (index, key) in test_keys.iter().enumerate() {
        assert_eq!(results[index], bl.contains(key));
    }
    assert_eq!(&results[4..], &[true, true, true, true]);

    let mut expected = BloomFilter32::default();
    for key in &keys {
        expected.insert(key);
    }
    assert_eq!(bl.bits, expected.bits);
}

#[test]
fn bloomy_works_on_every_filter() {
    let keys = vec!["mango", "apple"];
    let test_keys = vec!["carrot"];

    let mut bits = BloomFilter32BitVec::default();
    assert_eq!(bloomy(&mut bits, &keys, &test_keys).len(), 3);
    assert!(bits.contains("mango") && bits.contains("apple"));

    let mut prod = BloomFilterProd::with_counts(4096, 5);
    assert_eq!(bloomy(&mut prod, &keys, &test_keys), vec![false, true, true]);

    let mut empty = BloomFilter32::default();
    assert!(bloomy(&mut empty, &Vec::new(), &Vec::new()).is_empty());
    assert_eq!(empty.bits, [false; 32]);
}
