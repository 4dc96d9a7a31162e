use data_structures::hashing::hash_str;
use data_structures::replica_key::{is_replica_of, replica_key};

#[test]
fn replica_key_joins_key_underscore_and_decimal_index() {
    assert_eq!(replica_key("local", 0), "local_0");
    assert_eq!(replica_key("local", 9), "local_9");
    assert_eq!(replica_key("local", 10), "local_10");
    assert_eq!(replica_key("remote", 1234567890), "remote_1234567890");
    assert_eq!(replica_key("", 7), "_7");
    assert_eq!(replica_key("a_b", 305), "a_b_305");
    assert_eq!(replica_key("ключ", 42), "ключ_42");
    assert_eq!(
        replica_key("max", usize::MAX),
        format!("max_{}", usize::MAX)
    );
}

#[test]
fn replica_key_agrees_with_formatting() {
    for index in [0usize, 1, 5, 10, 11, 99, 100, 101, 999, 1000, 65535, 65536, 4294967295] {
        assert_eq!(replica_key("consumer", index), format!("{}_{}", "consumer", index));
    }
}

#[test]
fn is_replica_of_accepts_exactly_the_replica_keys() {
    assert!(is_replica_of("a_0", "a"));
    assert!(is_replica_of("a_1", "a"));
    assert!(is_replica_of("a_10", "a"));
    assert!(is_replica_of("a_9876543210", "a"));
    assert!(is_replica_of("a_99999999999999999999999999", "a"));
    assert!(is_replica_of("_3", ""));
    assert!(is_replica_of("a_1_0", "a_1"));
    assert!(is_replica_of("é_3", "é"));
    assert!(is_replica_of("local_2", "local"));
}

#[test]
fn is_replica_of_rejects_everything_else() {
    assert!(!is_replica_of("a", "a"));
    assert!(!is_replica_of("a_", "a"));
    assert!(!is_replica_of("a_01", "a"));
    assert!(!is_replica_of("a_00", "a"));
    assert!(!is_replica_of("a_1x", "a"));
    assert!(!is_replica_of("a_x1", "a"));
    assert!(!is_replica_of("a_-1", "a"));
    assert!(!is_replica_of("a_+1", "a"));
    assert!(!is_replica_of("a_1 ", "a"));
    assert!(!is_replica_of("a__0", "a"));
    assert!(!is_replica_of("a_1_0", "a"));
    assert!(!is_replica_of("ab_1", "a"));
    assert!(!is_replica_of("a1", "a"));
    assert!(!is_replica_of("a-1", "a"));
    assert!(!is_replica_of("b_1", "a"));
    assert!(!is_replica_of("a_1", "a_1"));
    assert!(!is_replica_of("a_1", "a_"));
    assert!(!is_replica_of("", ""));
    assert!(!is_replica_of("_", ""));
    assert!(!is_replica_of("a_١", "a"));
    assert!(!is_replica_of("node10_0", "node1"));
    assert!(!is_replica_of("local_0", "loca"));
}

#[test]
fn hash_str_is_deterministic_and_order_sensitive() {
    assert_eq!(hash_str("mango"), hash_str("mango"));
    assert_eq!(hash_str("mango"), hash_str(&String::from("mango")));
    assert_ne!(hash_str("mango"), hash_str("ognam"));
    assert_eq!(hash_str("to be or not to be"), 1988685042348123509);
    assert_ne!(hash_str("to be or not to be "), hash_str("to be or not to be"));
}
