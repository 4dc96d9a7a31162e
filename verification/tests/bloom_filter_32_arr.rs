use data_structures::bloom_filter::BloomFilter;
use data_structures::bloom_filters::bloom_filter_32_arr::BloomFilter32;

fn folded(key: &str, seed: usize) -> usize {
    key.chars()
        .fold(0, |acc, ch| (acc + seed + (ch as usize % 32)) % 32)
}

#[test]
fn bloom_filter_32_arr_test_init_zeros() {
    let bl = BloomFilter32::default();

    bl.bits.iter().for_each(|bit| assert!(!bit));
}

#[test]
fn bloom_filter_32_arr_test_addititve_hasher_empty_string() {
    assert_eq!(BloomFilter32::additive_hasher("", 0), 0);
}

#[test]
fn test_addititve_hasher_seed_sensitive() {
    assert_ne!(
        BloomFilter32::additive_hasher("ad", 0),
        BloomFilter32::additive_hasher("ad", 1)
    );
}

#[test]
fn seeded_additive_hasher_gives_exact_positions() {
    // 'a' is 97 and 'd' is 100: 1 and 4 modulo 32.
    assert_eq!(BloomFilter32::additive_hasher("a", 0), 1);
    assert_eq!(BloomFilter32::additive_hasher("ad", 0), 5);
    assert_eq!(BloomFilter32::additive_hasher("ad", 1), 7);
    assert_eq!(BloomFilter32::additive_hasher("ad", 16), 5);
    assert_eq!(BloomFilter32::additive_hasher("da", 3), 11);
    assert_eq!(BloomFilter32::additive_hasher("", 31), 0);
    assert_eq!(BloomFilter32::additive_hasher("é", 0), 233 % 32);
}

#[test]
fn seeded_additive_hasher_agrees_with_the_fold() {
    for key in ["", "a", "mango", "apple", "orange", "banana", "carrot", "ключ", "a longer key with spaces"] {
        for seed in [0usize, 1, 2, 31, 32, 33, 1000, 123456789] {
            assert_eq!(BloomFilter32::additive_hasher(key, seed), folded(key, seed));
            assert!(BloomFilter32::additive_hasher(key, seed) < 32);
        }
    }
}

#[test]
fn seeded_additive_hasher_takes_any_seed() {
    let key = "mango";
    let low = BloomFilter32::additive_hasher(key, 0);
    // usize::MAX is 31 modulo 32, and the key has five characters.
    assert_eq!(BloomFilter32::additive_hasher(key, usize::MAX), (low + 31 * 5) % 32);
}

#[test]
fn seed_moves_the_hash_by_seed_times_length() {
    for key in ["", "a", "ad", "mango", "thirty-two characters in here ok"] {
        let length = key.chars().count();
        for seed in [0usize, 1, 2, 7, 16] {
            assert_eq!(
                BloomFilter32::additive_hasher(key, seed),
                (BloomFilter32::additive_hasher(key, 0) + seed * length) % 32
            );
        }
    }
}

#[test]
fn seeded_filter_sets_both_positions_and_finds_the_key() {
    let mut bl = BloomFilter32::default();
    assert!(!bl.contains("ad"));
    bl.insert("ad");

    let mut expected = [false; 32];
    expected[5] = true;
    expected[7] = true;
    assert_eq!(bl.bits, expected);
    assert!(bl.contains("ad"));
    assert!(!bl.contains("a"));
}

#[test]
fn seeded_filter_never_forgets_a_key() {
    let mut bl = BloomFilter32::default();
    let keys = ["mango", "apple", "orange", "banana"];
    for (count, key) in keys.iter().enumerate() {
        bl.insert(key);
        for earlier in &keys[..=count] {
            assert!(bl.contains(earlier));
        }
    }
}

#[test]
fn seeded_filter_shows_its_bits_between_quotes() {
    let mut bl = BloomFilter32::default();
    assert_eq!(bl.debug_string(), format!("\"{}\"", "0 ".repeat(32)));
    bl.insert("ad");
    let text: String = bl.bits.iter().map(|&x| if x { "1 " } else { "0 " }).collect();
    assert_eq!(bl.debug_string(), format!("{:?}", text));
    assert_eq!(
        bl.debug_string(),
        "\"0 0 0 0 0 1 0 1 0 0 0 0 0 0 0 0 0 0 0 0 0 0 0 0 0 0 0 0 0 0 0 0 \""
    );
}
